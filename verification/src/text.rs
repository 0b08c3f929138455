//! Character-level text rules: white space, trimming, word splitting and
//! searching, stated over sequences of characters.
use vstd::prelude::*;
use vstd::string::*;

verus! {

/// `String::push` appends the character: the text is the old text followed
/// by that character.
pub assume_specification[ String::push ](s: &mut String, ch: char)
    ensures
        final(s)@ == old(s)@.push(ch),
;

/// The lower-case form of a text, as `str::to_lowercase` computes it.
pub uninterp spec fn lowercase_of(s: Seq<char>) -> Seq<char>;

/// The upper-case form of a text, as `str::to_uppercase` computes it.
pub uninterp spec fn uppercase_of(s: Seq<char>) -> Seq<char>;

/// Calls `str::to_lowercase`. The contract only names the result: the Unicode
/// case mapping itself is not restated here.
#[verifier::external_body]
pub(crate) fn to_lowercase(s: &str) -> (r: String)
    ensures
        r@ == lowercase_of(s@),
{
    s.to_lowercase()
}

/// Calls `str::to_uppercase`. The contract only names the result: the Unicode
/// case mapping itself is not restated here.
#[verifier::external_body]
pub(crate) fn to_uppercase(s: &str) -> (r: String)
    ensures
        r@ == uppercase_of(s@),
{
    s.to_uppercase()
}

/// Whether `c` is white space: the code points that carry the Unicode
/// `White_Space` property.
pub open spec fn is_space(c: char) -> bool {
    let n = c as u32;
    ||| 0x09 <= n <= 0x0d
    ||| n == 0x20
    ||| n == 0x85
    ||| n == 0xa0
    ||| n == 0x1680
    ||| 0x2000 <= n <= 0x200a
    ||| n == 0x2028
    ||| n == 0x2029
    ||| n == 0x202f
    ||| n == 0x205f
    ||| n == 0x3000
}

/// `s` without its leading white space.
pub open spec fn trim_start(s: Seq<char>) -> Seq<char>
    decreases s.len(),
{
    if s.len() > 0 && is_space(s[0]) {
        trim_start(s.drop_first())
    } else {
        s
    }
}

/// `s` without its trailing white space.
pub open spec fn trim_end(s: Seq<char>) -> Seq<char>
    decreases s.len(),
{
    if s.len() > 0 && is_space(s.last()) {
        trim_end(s.drop_last())
    } else {
        s
    }
}

/// `s` without leading and trailing white space.
pub open spec fn trimmed(s: Seq<char>) -> Seq<char> {
    trim_end(trim_start(s))
}

/// Length of the run of non-space characters that `s` starts with.
pub open spec fn word_len(s: Seq<char>) -> nat
    decreases s.len(),
{
    if s.len() > 0 && !is_space(s[0]) {
        1 + word_len(s.drop_first())
    } else {
        0
    }
}

/// A word is no longer than the text it starts.
pub proof fn lemma_word_len_bound(s: Seq<char>)
    ensures
        word_len(s) <= s.len(),
    decreases s.len(),
{
    if s.len() > 0 && !is_space(s[0]) {
        lemma_word_len_bound(s.drop_first());
    }
}

/// The maximal runs of non-space characters of `s`, in order.
pub open spec fn words(s: Seq<char>) -> Seq<Seq<char>>
    decreases s.len(),
    via words_decreases
{
    if s.len() == 0 {
        Seq::empty()
    } else if is_space(s[0]) {
        words(s.drop_first())
    } else {
        seq![s.take(word_len(s) as int)] + words(s.skip(word_len(s) as int))
    }
}

#[via_fn]
proof fn words_decreases(s: Seq<char>) {
    lemma_word_len_bound(s);
}

/// The parts joined by a single space between neighbours.
pub open spec fn spaced(parts: Seq<Seq<char>>) -> Seq<char>
    decreases parts.len(),
{
    if parts.len() == 0 {
        Seq::empty()
    } else if parts.len() == 1 {
        parts[0]
    } else {
        spaced(parts.drop_last()) + seq![' '] + parts.last()
    }
}

/// The parts one after another, with nothing between them.
pub open spec fn glued(parts: Seq<Seq<char>>) -> Seq<char>
    decreases parts.len(),
{
    if parts.len() == 0 {
        Seq::empty()
    } else {
        glued(parts.drop_last()) + parts.last()
    }
}

/// `s` with every run of white space collapsed to one space and none at
/// either end.
pub open spec fn normalized(s: Seq<char>) -> Seq<char> {
    spaced(words(s))
}

/// Whether `needle` stands in `hay` at position `i`.
pub open spec fn occurs_at(hay: Seq<char>, needle: Seq<char>, i: int) -> bool {
    &&& 0 <= i
    &&& i + needle.len() <= hay.len()
    &&& hay.subrange(i, i + needle.len()) == needle
}

/// Whether `needle` stands somewhere in `hay`.
pub open spec fn has_substring(hay: Seq<char>, needle: Seq<char>) -> bool {
    exists|i: int| occurs_at(hay, needle, i)
}

/// Whether `hay` starts with `prefix`.
pub open spec fn has_prefix(hay: Seq<char>, prefix: Seq<char>) -> bool {
    occurs_at(hay, prefix, 0)
}

/// Whether `hay` ends with `suffix`.
pub open spec fn has_suffix(hay: Seq<char>, suffix: Seq<char>) -> bool {
    occurs_at(hay, suffix, hay.len() - suffix.len())
}

/// Index of the first `c` in `s`, or the length of `s` where there is none.
pub open spec fn first_index(s: Seq<char>, c: char) -> int
    decreases s.len(),
{
    if s.len() == 0 || s[0] == c {
        0
    } else {
        1 + first_index(s.drop_first(), c)
    }
}

/// Index of the last `c` in `s`, or -1 where there is none.
pub open spec fn last_index(s: Seq<char>, c: char) -> int
    decreases s.len(),
{
    if s.len() == 0 {
        -1
    } else if s.last() == c {
        s.len() - 1
    } else {
        last_index(s.drop_last(), c)
    }
}

/// What stands before the first `c` in `s`: all of `s` where there is none.
pub open spec fn before_first(s: Seq<char>, c: char) -> Seq<char> {
    s.take(first_index(s, c))
}

/// What stands after the last `c` in `s`, if there is one.
pub open spec fn after_last(s: Seq<char>, c: char) -> Option<Seq<char>> {
    if last_index(s, c) < 0 {
        None
    } else {
        Some(s.skip(last_index(s, c) + 1))
    }
}

/// What stands in `s` from its first `c` on, that `c` included: nothing
/// where there is none.
pub open spec fn from_first(s: Seq<char>, c: char) -> Seq<char> {
    s.skip(first_index(s, c))
}

/// What follows the first place at which `needle` stands in `hay`, if it
/// stands anywhere.
pub open spec fn after_first(hay: Seq<char>, needle: Seq<char>) -> Option<Seq<char>>
    decreases hay.len(),
{
    if has_prefix(hay, needle) {
        Some(hay.skip(needle.len() as int))
    } else if hay.len() == 0 {
        None
    } else {
        after_first(hay.drop_first(), needle)
    }
}

/// The first `c` of `s` stands at `first_index`, and no `c` stands before
/// it; where `s` holds no `c`, `first_index` is the length of `s`.
pub proof fn lemma_first_index(s: Seq<char>, c: char)
    ensures
        0 <= first_index(s, c) <= s.len(),
        first_index(s, c) < s.len() ==> s[first_index(s, c)] == c,
        forall|i: int| 0 <= i < first_index(s, c) ==> s[i] != c,
    decreases s.len(),
{
    if !(s.len() == 0 || s[0] == c) {
        let rest = s.drop_first();
        lemma_first_index(rest, c);
        assert forall|i: int| 0 <= i < first_index(s, c) implies s[i] != c by {
            if i > 0 {
                assert(rest[i - 1] == s[i]);
            }
        }
        if first_index(s, c) < s.len() {
            assert(rest[first_index(rest, c)] == s[first_index(s, c)]);
        }
    }
}

/// `after_first` finds the first place at which `needle` stands in `hay`:
/// it gives what follows that place, and nothing where there is none.
pub proof fn lemma_after_first(hay: Seq<char>, needle: Seq<char>)
    ensures
        match after_first(hay, needle) {
            Some(rest) => exists|i: int|
                #![trigger occurs_at(hay, needle, i)]
                occurs_at(hay, needle, i) && rest == hay.skip(i + needle.len()) && forall|j: int|
                    0 <= j < i ==> !occurs_at(hay, needle, j),
            None => !has_substring(hay, needle),
        },
    decreases hay.len(),
{
    if has_prefix(hay, needle) {
        assert(occurs_at(hay, needle, 0));
    } else if hay.len() == 0 {
        assert forall|i: int| !occurs_at(hay, needle, i) by {
            if occurs_at(hay, needle, i) {
                assert(i == 0);
            }
        }
    } else {
        let rest = hay.drop_first();
        lemma_after_first(rest, needle);
        assert forall|j: int| occurs_at(rest, needle, j) == occurs_at(hay, needle, j + 1) by {
            if 0 <= j && j + needle.len() <= rest.len() {
                assert(rest.subrange(j, j + needle.len()) =~= hay.subrange(
                    j + 1,
                    j + 1 + needle.len(),
                ));
            }
        }
        match after_first(rest, needle) {
            Some(tail) => {
                let i = choose|i: int|
                    #![trigger occurs_at(rest, needle, i)]
                    occurs_at(rest, needle, i) && tail == rest.skip(i + needle.len()) && forall|
                        j: int,
                    |
                        0 <= j < i ==> !occurs_at(rest, needle, j);
                assert(occurs_at(hay, needle, i + 1));
                assert(rest.skip(i + needle.len()) =~= hay.skip(i + 1 + needle.len()));
                assert forall|j: int| 0 <= j < i + 1 implies !occurs_at(hay, needle, j) by {
                    if j > 0 {
                        assert(!occurs_at(rest, needle, j - 1));
                    }
                }
            },
            None => {
                assert forall|i: int| !occurs_at(hay, needle, i) by {
                    if occurs_at(hay, needle, i) {
                        if i == 0 {
                            assert(has_prefix(hay, needle));
                        } else {
                            assert(occurs_at(rest, needle, i - 1));
                        }
                    }
                }
            },
        }
    }
}

/// The last `c` of `s` stands at `last_index`, and `s` holds no `c` exactly
/// where that is -1.
pub proof fn lemma_last_index(s: Seq<char>, c: char)
    ensures
        -1 <= last_index(s, c) < s.len(),
        last_index(s, c) >= 0 ==> s[last_index(s, c)] == c,
        last_index(s, c) < 0 <==> !s.contains(c),
        forall|i: int| last_index(s, c) < i < s.len() ==> s[i] != c,
    decreases s.len(),
{
    if s.len() > 0 {
        if s.last() == c {
            assert(s[s.len() - 1] == c);
        } else {
            lemma_last_index(s.drop_last(), c);
            assert forall|i: int| last_index(s, c) < i < s.len() implies s[i] != c by {
                if i < s.len() - 1 {
                    assert(s.drop_last()[i] == s[i]);
                }
            }
            if last_index(s.drop_last(), c) >= 0 {
                assert(s[last_index(s.drop_last(), c)] == c);
            } else {
                assert forall|i: int| 0 <= i < s.len() implies s[i] != c by {
                    if i < s.len() - 1 {
                        assert(s.drop_last()[i] == s[i]);
                    }
                }
            }
        }
    }
}

/// What follows the last `c` of `s` holds no `c`.
pub proof fn lemma_nothing_after_last(s: Seq<char>, c: char)
    ensures
        match after_last(s, c) {
            Some(rest) => !rest.contains(c),
            None => !s.contains(c),
        },
    decreases s.len(),
{
    lemma_last_index(s, c);
    if s.len() > 0 && last_index(s, c) >= 0 {
        if s.last() == c {
            assert(s.skip(last_index(s, c) + 1) =~= Seq::<char>::empty());
        } else {
            let shorter = s.drop_last();
            lemma_nothing_after_last(shorter, c);
            lemma_last_index(shorter, c);
            let k = last_index(s, c);
            let rest = s.skip(k + 1);
            assert(shorter.skip(k + 1).push(s.last()) =~= rest);
            assert forall|i: int| 0 <= i < rest.len() implies rest[i] != c by {
                if i < rest.len() - 1 {
                    assert(shorter.skip(k + 1)[i] == rest[i]);
                    assert(shorter.skip(k + 1).contains(rest[i]));
                }
            }
        }
    }
}

/// The first `n` characters of `s`, or all of it where it is shorter.
pub open spec fn prefix_of(s: Seq<char>, n: nat) -> Seq<char> {
    if n <= s.len() {
        s.take(n as int)
    } else {
        s
    }
}

/// The lower-case form of an ASCII letter; any other character unchanged.
pub open spec fn ascii_lower(c: char) -> char {
    if 'A' <= c && c <= 'Z' {
        ((c as u8) + 32) as char
    } else {
        c
    }
}

/// Whether two texts are equal up to the case of ASCII letters.
pub open spec fn same_ignoring_ascii_case(a: Seq<char>, b: Seq<char>) -> bool {
    &&& a.len() == b.len()
    &&& forall|i: int| 0 <= i < a.len() ==> ascii_lower(#[trigger] a[i]) == ascii_lower(b[i])
}

/// Whether `c` is white space.
pub fn is_whitespace(c: char) -> (r: bool)
    ensures
        r == is_space(c),
{
    let n: u32 = c as u32;
    (0x09 <= n && n <= 0x0d) || n == 0x20 || n == 0x85 || n == 0xa0 || n == 0x1680 || (0x2000 <= n
        && n <= 0x200a) || n == 0x2028 || n == 0x2029 || n == 0x202f || n == 0x205f || n == 0x3000
}

/// The characters of `s`, in order.
pub fn chars_of(s: &str) -> (v: Vec<char>)
    ensures
        v@ == s@,
{
    let mut v: Vec<char> = Vec::new();
    for c in it: s.chars()
        invariant
            v@ == it.seq().take(it.index() as int),
    {
        v.push(c);
    }
    v
}

/// The text made of `chars[from..to]`.
pub fn text_of(chars: &Vec<char>, from: usize, to: usize) -> (s: String)
    requires
        from <= to <= chars.len(),
    ensures
        s@ == chars@.subrange(from as int, to as int),
{
    let mut s = String::new();
    let mut k: usize = from;
    while k < to
        invariant
            from <= k <= to <= chars.len(),
            s@ == chars@.subrange(from as int, k as int),
        decreases to - k,
    {
        s.push(chars[k]);
        k += 1;
    }
    s
}

/// Whether two texts hold the same characters.
pub fn same(a: &str, b: &str) -> (r: bool)
    ensures
        r == (a@ == b@),
{
    let x = chars_of(a);
    let y = chars_of(b);
    if x.len() != y.len() {
        return false;
    }
    let mut i: usize = 0;
    while i < x.len()
        invariant
            i <= x.len() == y.len(),
            x@ == a@,
            y@ == b@,
            forall|t: int| 0 <= t < i ==> x@[t] == y@[t],
        decreases x.len() - i,
    {
        if x[i] != y[i] {
            return false;
        }
        i += 1;
    }
    assert(a@ =~= b@);
    true
}

/// `s` without leading and trailing white space.
pub fn trim(s: &str) -> (r: String)
    ensures
        r@ == trimmed(s@),
{
    let cs = chars_of(s);
    let n = cs.len();
    let mut i: usize = 0;
    assert(cs@.skip(0) == cs@);
    while i < n && is_whitespace(cs[i])
        invariant
            i <= n == cs.len(),
            trim_start(cs@) == trim_start(cs@.skip(i as int)),
        decreases n - i,
    {
        assert(cs@.skip(i as int).drop_first() == cs@.skip(i + 1));
        i += 1;
    }
    assert(trim_start(cs@) == cs@.skip(i as int));
    let mut j: usize = n;
    assert(cs@.skip(i as int) == cs@.subrange(i as int, j as int));
    while j > i && is_whitespace(cs[j - 1])
        invariant
            i <= j <= n == cs.len(),
            trim_end(cs@.skip(i as int)) == trim_end(cs@.subrange(i as int, j as int)),
        decreases j,
    {
        assert(cs@.subrange(i as int, j as int).drop_last() == cs@.subrange(i as int, j - 1));
        j -= 1;
    }
    text_of(&cs, i, j)
}

/// The maximal runs of non-space characters of `s`, each as a text of its own.
pub fn split_words(s: &str) -> (r: Vec<String>)
    ensures
        r.deep_view() == words(s@),
{
    let cs = chars_of(s);
    let n = cs.len();
    let mut out: Vec<String> = Vec::new();
    let mut i: usize = 0;
    assert(cs@.skip(0) == cs@);
    assert(out.deep_view() == Seq::<Seq<char>>::empty());
    while i < n
        invariant
            i <= n == cs.len(),
            words(cs@) == out.deep_view() + words(cs@.skip(i as int)),
        decreases n - i,
    {
        let ghost rest = cs@.skip(i as int);
        if is_whitespace(cs[i]) {
            assert(rest.drop_first() == cs@.skip(i + 1));
            i += 1;
        } else {
            let mut j: usize = i + 1;
            assert(rest.drop_first() == cs@.skip(j as int));
            while j < n && !is_whitespace(cs[j])
                invariant
                    i < j <= n == cs.len(),
                    word_len(cs@.skip(i as int)) == (j - i) + word_len(cs@.skip(j as int)),
                decreases n - j,
            {
                assert(cs@.skip(j as int).drop_first() == cs@.skip(j + 1));
                j += 1;
            }
            let word = text_of(&cs, i, j);
            let ghost before = out.deep_view();
            assert(rest.take(j - i) == cs@.subrange(i as int, j as int));
            assert(rest.skip(j - i) == cs@.skip(j as int));
            out.push(word);
            assert(out.deep_view() == before + seq![word@]);
            assert((before + seq![word@]) + words(cs@.skip(j as int)) == before + (seq![word@]
                + words(cs@.skip(j as int))));
            i = j;
        }
    }
    assert(out.deep_view() + Seq::<Seq<char>>::empty() == out.deep_view());
    out
}

/// The parts joined by a single space.
pub fn join_spaced(parts: &Vec<String>) -> (r: String)
    ensures
        r@ == spaced(parts.deep_view()),
{
    let mut out = String::new();
    let mut k: usize = 0;
    assert(parts.deep_view().take(0) == Seq::<Seq<char>>::empty());
    while k < parts.len()
        invariant
            k <= parts.len(),
            out@ == spaced(parts.deep_view().take(k as int)),
        decreases parts.len() - k,
    {
        let ghost done = parts.deep_view().take(k as int);
        let ghost next = parts.deep_view().take(k + 1);
        assert(next.drop_last() == done);
        assert(next.last() == parts[k as int]@);
        if k > 0 {
            out.push(' ');
        }
        out.append(parts[k].as_str());
        k += 1;
    }
    assert(parts.deep_view().take(k as int) == parts.deep_view());
    out
}

/// The parts one after another.
pub fn join_glued(parts: &Vec<String>) -> (r: String)
    ensures
        r@ == glued(parts.deep_view()),
{
    let mut out = String::new();
    let mut k: usize = 0;
    assert(parts.deep_view().take(0) == Seq::<Seq<char>>::empty());
    while k < parts.len()
        invariant
            k <= parts.len(),
            out@ == glued(parts.deep_view().take(k as int)),
        decreases parts.len() - k,
    {
        let ghost done = parts.deep_view().take(k as int);
        let ghost next = parts.deep_view().take(k + 1);
        assert(next.drop_last() == done);
        assert(next.last() == parts[k as int]@);
        out.append(parts[k].as_str());
        k += 1;
    }
    assert(parts.deep_view().take(k as int) == parts.deep_view());
    out
}

/// Collapses every run of white space to one space and drops it at the ends.
pub fn normalize(s: &str) -> (r: String)
    ensures
        r@ == normalized(s@),
{
    let parts = split_words(s);
    join_spaced(&parts)
}

/// The number of white-space separated words in `s`.
pub fn word_count(s: &str) -> (n: usize)
    ensures
        n == words(s@).len(),
{
    let parts = split_words(s);
    parts.len()
}

fn matches_at(hay: &Vec<char>, needle: &Vec<char>, i: usize) -> (r: bool)
    ensures
        r == occurs_at(hay@, needle@, i as int),
{
    if needle.len() > hay.len() || i > hay.len() - needle.len() {
        return false;
    }
    let mut k: usize = 0;
    while k < needle.len()
        invariant
            k <= needle.len(),
            i + needle.len() <= hay.len(),
            forall|t: int| 0 <= t < k ==> hay@[i + t] == needle@[t],
        decreases needle.len() - k,
    {
        if hay[i + k] != needle[k] {
            assert(hay@.subrange(i as int, i + needle.len())[k as int] == hay@[i + k]);
            return false;
        }
        k += 1;
    }
    assert(hay@.subrange(i as int, i + needle.len()) =~= needle@);
    true
}

/// Whether `needle` stands somewhere in `hay`.
pub fn contains(hay: &str, needle: &str) -> (r: bool)
    ensures
        r == has_substring(hay@, needle@),
{
    let h = chars_of(hay);
    let n = chars_of(needle);
    if n.len() == 0 {
        assert(occurs_at(hay@, needle@, 0)) by {
            assert(hay@.subrange(0, 0) =~= needle@);
        }
        return true;
    }
    if n.len() > h.len() {
        return false;
    }
    let last = h.len() - n.len();
    let mut i: usize = 0;
    while i <= last
        invariant
            i <= last + 1,
            last == h.len() - n.len(),
            0 < n.len() <= h.len(),
            h@ == hay@,
            n@ == needle@,
            forall|t: int| 0 <= t < i ==> !occurs_at(h@, n@, t),
        decreases last + 1 - i,
    {
        if matches_at(&h, &n, i) {
            return true;
        }
        i += 1;
    }
    false
}

/// Whether `hay` starts with `prefix`.
pub fn starts_with(hay: &str, prefix: &str) -> (r: bool)
    ensures
        r == has_prefix(hay@, prefix@),
{
    let h = chars_of(hay);
    let p = chars_of(prefix);
    matches_at(&h, &p, 0)
}

/// Whether `hay` ends with `suffix`.
pub fn ends_with(hay: &str, suffix: &str) -> (r: bool)
    ensures
        r == has_suffix(hay@, suffix@),
{
    let h = chars_of(hay);
    let p = chars_of(suffix);
    if p.len() > h.len() {
        return false;
    }
    matches_at(&h, &p, h.len() - p.len())
}

/// What stands before the first `c`: all of `s` where there is none.
pub fn cut_before(s: &str, c: char) -> (r: String)
    ensures
        r@ == before_first(s@, c),
{
    let cs = chars_of(s);
    let mut i: usize = 0;
    assert(cs@.skip(0) == cs@);
    while i < cs.len() && cs[i] != c
        invariant
            i <= cs.len(),
            first_index(cs@, c) == i + first_index(cs@.skip(i as int), c),
        decreases cs.len() - i,
    {
        assert(cs@.skip(i as int).drop_first() == cs@.skip(i + 1));
        i += 1;
    }
    text_of(&cs, 0, i)
}

/// What stands after the last `c`, if there is one.
pub fn cut_after_last(s: &str, c: char) -> (r: Option<String>)
    ensures
        r.is_some() == after_last(s@, c).is_some(),
        r.is_some() ==> r.unwrap()@ == after_last(s@, c).unwrap(),
{
    let cs = chars_of(s);
    let n = cs.len();
    let mut j: usize = n;
    assert(cs@.take(n as int) == cs@);
    while j > 0 && cs[j - 1] != c
        invariant
            j <= n == cs.len(),
            last_index(cs@, c) == last_index(cs@.take(j as int), c),
        decreases j,
    {
        assert(cs@.take(j as int).drop_last() == cs@.take(j - 1));
        j -= 1;
    }
    if j == 0 {
        None
    } else {
        assert(cs@.skip(j as int) == cs@.subrange(j as int, n as int));
        Some(text_of(&cs, j, n))
    }
}

/// The first `n` characters of `s`, or all of it where it is shorter.
pub fn take_prefix(s: &str, n: usize) -> (r: String)
    ensures
        r@ == prefix_of(s@, n as nat),
{
    let cs = chars_of(s);
    if n <= cs.len() {
        text_of(&cs, 0, n)
    } else {
        assert(cs@.subrange(0, cs.len() as int) == cs@);
        text_of(&cs, 0, cs.len())
    }
}

fn lower_ascii(c: char) -> (r: char)
    ensures
        r == ascii_lower(c),
{
    if 'A' <= c && c <= 'Z' {
        ((c as u8) + 32) as char
    } else {
        c
    }
}

/// Whether two texts are equal up to the case of ASCII letters.
pub fn eq_ignore_ascii_case(a: &str, b: &str) -> (r: bool)
    ensures
        r == same_ignoring_ascii_case(a@, b@),
{
    let x = chars_of(a);
    let y = chars_of(b);
    if x.len() != y.len() {
        return false;
    }
    let mut i: usize = 0;
    while i < x.len()
        invariant
            i <= x.len() == y.len(),
            x@ == a@,
            y@ == b@,
            forall|t: int| 0 <= t < i ==> ascii_lower(#[trigger] x@[t]) == ascii_lower(y@[t]),
        decreases x.len() - i,
    {
        if lower_ascii(x[i]) != lower_ascii(y[i]) {
            assert(ascii_lower(a@[i as int]) != ascii_lower(b@[i as int]));
            return false;
        }
        i += 1;
    }
    true
}

/// What stands in `s` from its first `c` on.
pub fn cut_from(s: &str, c: char) -> (r: String)
    ensures
        r@ == from_first(s@, c),
{
    let cs = chars_of(s);
    let mut i: usize = 0;
    assert(cs@.skip(0) == cs@);
    while i < cs.len() && cs[i] != c
        invariant
            i <= cs.len(),
            first_index(cs@, c) == i + first_index(cs@.skip(i as int), c),
        decreases cs.len() - i,
    {
        assert(cs@.skip(i as int).drop_first() == cs@.skip(i + 1));
        i += 1;
    }
    assert(cs@.skip(i as int) == cs@.subrange(i as int, cs.len() as int));
    text_of(&cs, i, cs.len())
}

/// What follows the first place at which `needle` stands in `hay`.
pub fn cut_after_first(hay: &str, needle: &str) -> (r: Option<String>)
    ensures
        r.deep_view() == after_first(hay@, needle@),
{
    let h = chars_of(hay);
    let n = chars_of(needle);
    let mut i: usize = 0;
    assert(h@.skip(0) == h@);
    loop
        invariant
            i <= h.len(),
            h@ == hay@,
            n@ == needle@,
            after_first(h@, n@) == after_first(h@.skip(i as int), n@),
        decreases h.len() - i,
    {
        let ghost rest = h@.skip(i as int);
        assert(occurs_at(h@, n@, i as int) == has_prefix(rest, n@)) by {
            if i + n.len() <= h.len() {
                assert(rest.subrange(0, n.len() as int) =~= h@.subrange(i as int, i + n.len()));
            }
        }
        if matches_at(&h, &n, i) {
            assert(rest.skip(n.len() as int) =~= h@.subrange(i + n.len(), h.len() as int));
            return Some(text_of(&h, i + n.len(), h.len()));
        }
        if i == h.len() {
            return None;
        }
        assert(rest.drop_first() == h@.skip(i + 1));
        i += 1;
    }
}

} // verus!
