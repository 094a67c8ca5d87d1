use vstd::prelude::*;

verus! {

/// Whether a character ends a sentence.
pub open spec fn is_terminal(c: char) -> bool {
    c == '.' || c == '?' || c == '!'
}

/// A line break becomes a space; every other character stays.
pub open spec fn cleaned_char(c: char) -> char {
    if c == '\n' || c == '\r' {
        ' '
    } else {
        c
    }
}

/// A text with its line breaks replaced by spaces.
pub open spec fn cleaned(text: Seq<char>) -> Seq<char> {
    Seq::new(text.len(), |i: int| cleaned_char(text[i]))
}

/// The number of characters before the first sentence end, or the length of the text
/// where it holds none.
pub open spec fn first_terminal(s: Seq<char>) -> nat
    decreases s.len(),
{
    if s.len() == 0 || is_terminal(s[0]) {
        0
    } else {
        1 + first_terminal(s.drop_first())
    }
}

/// The sentences of a text: the stretches between sentence ends, the ends themselves
/// left out. A stretch between two adjacent ends is an empty sentence; what follows
/// the last end is a sentence only if it holds a character.
pub open spec fn sentences_of(s: Seq<char>) -> Seq<Seq<char>>
    decreases s.len(),
{
    let k = first_terminal(s);
    if s.len() == 0 {
        Seq::empty()
    } else if k >= s.len() {
        seq![s]
    } else {
        seq![s.take(k as int)] + sentences_of(s.skip(k as int + 1))
    }
}

/// The texts held by a vector of character vectors.
pub open spec fn texts_of(v: Seq<Vec<char>>) -> Seq<Seq<char>> {
    Seq::new(v.len(), |i: int| v[i]@)
}

/// The texts held by a vector of strings.
pub open spec fn strings_of(v: Seq<String>) -> Seq<Seq<char>> {
    Seq::new(v.len(), |i: int| v[i]@)
}

/// The characters of a text, one by one.
pub fn chars_of(text: &str) -> (chars: Vec<char>)
    ensures
        chars@ == text@,
{
    let mut chars: Vec<char> = Vec::new();
    for c in it: text.chars()
        invariant
            it.seq() == text@,
            chars@ == it.seq().take(it.index()),
    {
        chars.push(c);
        assert(it.seq().take(it.index() + 1) =~= it.seq().take(it.index()).push(c));
    }
    assert(text@.take(text@.len() as int) =~= text@);
    chars
}

/// `String::from_iter` over the characters of a vector: the string that holds the
/// same characters in the same order.
#[verifier::external_body]
pub(crate) fn string_of(chars: &Vec<char>) -> (s: String)
    ensures
        s@ == chars@,
{
    String::from_iter(chars)
}

fn ends_sentence(c: char) -> (r: bool)
    ensures
        r == is_terminal(c),
{
    c == '.' || c == '?' || c == '!'
}

fn clean_char(c: char) -> (r: char)
    ensures
        r == cleaned_char(c),
{
    if c == '\n' || c == '\r' {
        ' '
    } else {
        c
    }
}

/// The sentences of a text of characters, line breaks replaced by spaces.
pub fn split_chars(chars: &Vec<char>) -> (out: Vec<Vec<char>>)
    ensures
        texts_of(out@) == sentences_of(cleaned(chars@)),
{
    let n: usize = chars.len();
    let ghost whole = cleaned(chars@);
    let mut out: Vec<Vec<char>> = Vec::new();
    let mut start: usize = 0;
    assert(whole.skip(0) =~= whole);
    assert(texts_of(out@) =~= Seq::<Seq<char>>::empty());
    while start < n
        invariant
            n == chars@.len(),
            whole == cleaned(chars@),
            start <= n,
            sentences_of(whole) == texts_of(out@) + sentences_of(whole.skip(start as int)),
        decreases n - start,
    {
        let ghost tail = whole.skip(start as int);
        let mut piece: Vec<char> = Vec::new();
        let mut end: usize = start;
        assert(whole.subrange(start as int, start as int) =~= piece@);
        while end < n && !ends_sentence(clean_char(chars[end]))
            invariant
                n == chars@.len(),
                whole == cleaned(chars@),
                start <= end <= n,
                piece@ == whole.subrange(start as int, end as int),
                first_terminal(whole.skip(start as int)) == (end - start) + first_terminal(
                    whole.skip(end as int),
                ),
            decreases n - end,
        {
            assert(whole.skip(end as int).drop_first() =~= whole.skip(end as int + 1));
            assert(whole.skip(end as int)[0] == whole[end as int]);
            piece.push(clean_char(chars[end]));
            assert(whole.subrange(start as int, end as int + 1) =~= whole.subrange(
                start as int,
                end as int,
            ).push(whole[end as int]));
            end += 1;
        }
        proof {
            if end < n {
                assert(whole.skip(end as int)[0] == whole[end as int]);
            }
            assert(first_terminal(tail) == end - start);
            assert(tail.take(end - start) =~= piece@);
            if end < n {
                assert(tail.skip(end - start + 1) =~= whole.skip(end as int + 1));
            } else {
                assert(tail =~= piece@);
            }
        }
        let ghost before = texts_of(out@);
        out.push(piece);
        assert(texts_of(out@) =~= before.push(piece@));
        if end < n {
            assert(before + (seq![piece@] + sentences_of(whole.skip(end as int + 1)))
                =~= before.push(piece@) + sentences_of(whole.skip(end as int + 1)));
            start = end + 1;
        } else {
            assert(whole.skip(n as int) =~= Seq::<char>::empty());
            assert(before + seq![piece@] =~= before.push(piece@) + Seq::<Seq<char>>::empty());
            start = n;
        }
    }
    assert(whole.skip(n as int) =~= Seq::<char>::empty());
    assert(texts_of(out@) + Seq::<Seq<char>>::empty() =~= texts_of(out@));
    out
}

/// The sentences of a text, line breaks replaced by spaces.
pub fn split_sentences(text: &str) -> (out: Vec<String>)
    ensures
        strings_of(out@) == sentences_of(cleaned(text@)),
{
    let chars = chars_of(text);
    let pieces = split_chars(&chars);
    let n: usize = pieces.len();
    let mut out: Vec<String> = Vec::new();
    let mut i: usize = 0;
    while i < n
        invariant
            n == pieces@.len(),
            i <= n,
            out@.len() == i,
            forall|j: int| 0 <= j < i ==> (#[trigger] out@[j])@ == pieces@[j]@,
        decreases n - i,
    {
        out.push(string_of(&pieces[i]));
        i += 1;
    }
    assert(strings_of(out@) =~= texts_of(pieces@));
    out
}

/// Whether a character is white space: one of the code points with the Unicode
/// property White_Space.
pub open spec fn is_space(c: char) -> bool {
    let u = c as u32;
    ||| 0x9 <= u <= 0xd
    ||| u == 0x20
    ||| u == 0x85
    ||| u == 0xa0
    ||| u == 0x1680
    ||| 0x2000 <= u <= 0x200a
    ||| u == 0x2028
    ||| u == 0x2029
    ||| u == 0x202f
    ||| u == 0x205f
    ||| u == 0x3000
}

/// The number of white-space characters that a text begins with.
pub open spec fn leading_spaces(s: Seq<char>) -> nat
    decreases s.len(),
{
    if s.len() == 0 || !is_space(s[0]) {
        0
    } else {
        1 + leading_spaces(s.drop_first())
    }
}

/// The number of white-space characters that a text ends with.
pub open spec fn trailing_spaces(s: Seq<char>) -> nat
    decreases s.len(),
{
    if s.len() == 0 || !is_space(s.last()) {
        0
    } else {
        1 + trailing_spaces(s.drop_last())
    }
}

/// A text without the white space at its two ends.
pub open spec fn trimmed(s: Seq<char>) -> Seq<char> {
    let rest = s.skip(leading_spaces(s) as int);
    rest.take(rest.len() - trailing_spaces(rest))
}

fn space_char(c: char) -> (r: bool)
    ensures
        r == is_space(c),
{
    let u: u32 = c as u32;
    (0x9 <= u && u <= 0xd) || u == 0x20 || u == 0x85 || u == 0xa0 || u == 0x1680 || (0x2000 <= u
        && u <= 0x200a) || u == 0x2028 || u == 0x2029 || u == 0x202f || u == 0x205f || u
        == 0x3000
}

/// Where the trimmed text lies in a text: it runs from the first bound up to, and
/// without, the second.
pub fn trim_bounds(s: &Vec<char>) -> (bounds: (usize, usize))
    ensures
        bounds.0 <= bounds.1 <= s@.len(),
        s@.subrange(bounds.0 as int, bounds.1 as int) == trimmed(s@),
{
    let n: usize = s.len();
    let mut lo: usize = 0;
    assert(s@.skip(0) =~= s@);
    while lo < n && space_char(s[lo])
        invariant
            n == s@.len(),
            lo <= n,
            leading_spaces(s@) == lo + leading_spaces(s@.skip(lo as int)),
        decreases n - lo,
    {
        assert(s@.skip(lo as int).drop_first() =~= s@.skip(lo as int + 1));
        assert(s@.skip(lo as int)[0] == s@[lo as int]);
        lo += 1;
    }
    proof {
        if lo < n {
            assert(s@.skip(lo as int)[0] == s@[lo as int]);
        }
        assert(leading_spaces(s@) == lo);
    }
    let ghost rest = s@.skip(lo as int);
    let mut hi: usize = n;
    assert(rest.take(n - lo) =~= rest);
    while hi > lo && space_char(s[hi - 1])
        invariant
            n == s@.len(),
            lo <= hi <= n,
            rest == s@.skip(lo as int),
            trailing_spaces(rest) == (n - hi) + trailing_spaces(rest.take(hi - lo)),
        decreases hi,
    {
        assert(rest.take(hi - lo).drop_last() =~= rest.take(hi - lo - 1));
        assert(rest.take(hi - lo).last() == s@[hi - 1]);
        hi -= 1;
    }
    proof {
        if hi > lo {
            assert(rest.take(hi - lo).last() == s@[hi - 1]);
        }
        assert(trailing_spaces(rest) == n - hi);
        assert(rest.take(rest.len() - (n - hi)) =~= s@.subrange(lo as int, hi as int));
    }
    (lo, hi)
}

} // verus!
