//! Text as sequences of characters: fields, words, joins and numbers.

use vstd::prelude::*;

verus! {

/// The position of the first separator in `s`, or the length of `s` if there
/// is none.
pub open spec fn first_sep(s: Seq<char>, sep: spec_fn(char) -> bool) -> int
    decreases s.len(),
{
    if s.len() == 0 || sep(s[0]) {
        0
    } else {
        1 + first_sep(s.drop_first(), sep)
    }
}

/// The fields of `s`: its maximal non-empty runs of characters that are no
/// separators, in order. Leading, trailing and repeated separators count for
/// nothing.
pub open spec fn fields(s: Seq<char>, sep: spec_fn(char) -> bool) -> Seq<Seq<char>>
    decreases s.len(),
{
    if s.len() == 0 {
        Seq::empty()
    } else {
        let n = first_sep(s, sep);
        if 0 < n <= s.len() {
            seq![s.subrange(0, n)] + fields(s.subrange(n, s.len() as int), sep)
        } else {
            fields(s.drop_first(), sep)
        }
    }
}

pub proof fn lemma_first_sep_bounds(s: Seq<char>, sep: spec_fn(char) -> bool)
    ensures
        0 <= first_sep(s, sep) <= s.len(),
        first_sep(s, sep) < s.len() ==> sep(s[first_sep(s, sep)]),
        forall|j: int| 0 <= j < first_sep(s, sep) ==> !sep(s[j]),
    decreases s.len(),
{
    if s.len() == 0 || sep(s[0]) {
    } else {
        let t = s.drop_first();
        lemma_first_sep_bounds(t, sep);
        assert forall|j: int| 0 <= j < first_sep(s, sep) implies !sep(s[j]) by {
            if j > 0 {
                assert(s[j] == t[j - 1]);
            }
        }
    }
}

/// Where the first separator of `s` stands, given a prefix of length `k`
/// without one that is followed by a separator or by the end of `s`.
pub proof fn lemma_first_sep_at(s: Seq<char>, sep: spec_fn(char) -> bool, k: int)
    requires
        0 <= k <= s.len(),
        forall|j: int| 0 <= j < k ==> !sep(s[j]),
        k < s.len() ==> sep(s[k]),
    ensures
        first_sep(s, sep) == k,
{
    lemma_first_sep_bounds(s, sep);
    let n = first_sep(s, sep);
    if n < k {
        assert(sep(s[n]));
    }
}

/// A leading separator adds nothing to the fields.
pub proof fn lemma_fields_skip(s: Seq<char>, sep: spec_fn(char) -> bool)
    requires
        s.len() > 0,
        sep(s[0]),
    ensures
        fields(s, sep) == fields(s.drop_first(), sep),
{
}

/// A prefix of length `k > 0` without a separator that is followed by a
/// separator or by the end of `s` is the first field of `s`.
pub proof fn lemma_fields_head(s: Seq<char>, sep: spec_fn(char) -> bool, k: int)
    requires
        0 < k <= s.len(),
        forall|j: int| 0 <= j < k ==> !sep(s[j]),
        k < s.len() ==> sep(s[k]),
    ensures
        fields(s, sep) == seq![s.subrange(0, k)] + fields(s.subrange(k, s.len() as int), sep),
{
    lemma_first_sep_at(s, sep, k);
}

/// A text without characters has no fields.
pub proof fn lemma_fields_of_nothing(s: Seq<char>, sep: spec_fn(char) -> bool)
    requires
        s.len() == 0,
    ensures
        fields(s, sep) == Seq::<Seq<char>>::empty(),
{
}

/// White space, as Rust's `char::is_whitespace` has it.
pub open spec fn is_space(c: char) -> bool {
    let n = c as u32;
    ||| 0x09 <= n <= 0x0D
    ||| n == 0x20
    ||| n == 0x85
    ||| n == 0xA0
    ||| n == 0x1680
    ||| 0x2000 <= n <= 0x200A
    ||| n == 0x2028
    ||| n == 0x2029
    ||| n == 0x202F
    ||| n == 0x205F
    ||| n == 0x3000
}

/// Tells whether `c` is white space.
pub fn is_whitespace(c: char) -> (r: bool)
    ensures
        r == is_space(c),
{
    let n = c as u32;
    (0x09 <= n && n <= 0x0D) || n == 0x20 || n == 0x85 || n == 0xA0 || n == 0x1680 || (0x2000 <= n
        && n <= 0x200A) || n == 0x2028 || n == 0x2029 || n == 0x202F || n == 0x205F || n == 0x3000
}

/// What separates the words of a line.
pub open spec fn space() -> spec_fn(char) -> bool {
    |c: char| is_space(c)
}

/// The words of a line: its maximal runs of characters other than white
/// space.
pub open spec fn words(line: Seq<char>) -> Seq<Seq<char>> {
    fields(line, space())
}

/// The contents of a vector of texts.
pub open spec fn texts_of(parts: Seq<Vec<char>>) -> Seq<Seq<char>> {
    Seq::new(parts.len(), |i: int| parts[i]@)
}

/// A copy of the characters `from..to` of `text`.
pub fn copy_range(text: &Vec<char>, from: usize, to: usize) -> (part: Vec<char>)
    requires
        from <= to <= text.len(),
    ensures
        part@ == text@.subrange(from as int, to as int),
{
    let mut part: Vec<char> = Vec::new();
    let mut i: usize = from;
    while i < to
        invariant
            from <= i <= to <= text.len(),
            part@ == text@.subrange(from as int, i as int),
        decreases to - i,
    {
        part.push(text[i]);
        i += 1;
        assert(part@ =~= text@.subrange(from as int, i as int));
    }
    part
}

/// Splits a line into its words.
pub fn split_words(line: &Vec<char>) -> (parts: Vec<Vec<char>>)
    ensures
        texts_of(parts@) == words(line@),
{
    let n = line.len();
    let mut parts: Vec<Vec<char>> = Vec::new();
    let mut start: usize = 0;
    let mut i: usize = 0;
    proof {
        assert(line@.subrange(0, n as int) =~= line@);
        assert(texts_of(parts@) + words(line@) =~= words(line@));
    }
    while i < n
        invariant
            n == line.len(),
            start <= i <= n,
            forall|j: int| start <= j < i ==> !is_space(line@[j]),
            words(line@) == texts_of(parts@) + words(line@.subrange(start as int, n as int)),
        decreases n - i,
    {
        if is_whitespace(line[i]) {
            let ghost tail = line@.subrange(start as int, n as int);
            let ghost k = i - start;
            let ghost next = line@.subrange(i + 1, n as int);
            let ghost before = parts@;
            if start < i {
                let word = copy_range(line, start, i);
                parts.push(word);
                proof {
                    let after = tail.subrange(k, tail.len() as int);
                    lemma_fields_head(tail, space(), k);
                    lemma_fields_skip(after, space());
                    assert(after.drop_first() =~= next);
                    assert(tail.subrange(0, k) =~= word@);
                    assert(texts_of(parts@) =~= texts_of(before) + seq![word@]);
                    assert(texts_of(before) + (seq![word@] + words(next)) =~= texts_of(parts@)
                        + words(next));
                }
            } else {
                proof {
                    lemma_fields_skip(tail, space());
                    assert(tail.drop_first() =~= next);
                }
            }
            start = i + 1;
        }
        i += 1;
    }
    if start < n {
        let word = copy_range(line, start, n);
        let ghost before = parts@;
        let ghost tail = line@.subrange(start as int, n as int);
        parts.push(word);
        proof {
            lemma_fields_head(tail, space(), tail.len() as int);
            assert(tail.subrange(0, tail.len() as int) =~= tail);
            lemma_fields_of_nothing(tail.subrange(tail.len() as int, tail.len() as int), space());
            assert(texts_of(parts@) =~= texts_of(before) + seq![tail]);
        }
    } else {
        proof {
            lemma_fields_of_nothing(line@.subrange(start as int, n as int), space());
            assert(texts_of(parts@) + Seq::<Seq<char>>::empty() =~= texts_of(parts@));
        }
    }
    parts
}

/// `text` without the white space at its start.
pub open spec fn trim_start(text: Seq<char>) -> Seq<char>
    decreases text.len(),
{
    if text.len() > 0 && is_space(text[0]) {
        trim_start(text.drop_first())
    } else {
        text
    }
}

/// `text` without the white space at its end.
pub open spec fn trim_end(text: Seq<char>) -> Seq<char>
    decreases text.len(),
{
    if text.len() > 0 && is_space(text.last()) {
        trim_end(text.drop_last())
    } else {
        text
    }
}

/// `text` without the white space at its start and at its end.
pub open spec fn trimmed(text: Seq<char>) -> Seq<char> {
    trim_end(trim_start(text))
}

/// The characters `from..to` of `text`, without the white space at their
/// start and at their end.
pub fn trim_range(text: &Vec<char>, from: usize, to: usize) -> (part: Vec<char>)
    requires
        from <= to <= text.len(),
    ensures
        part@ == trimmed(text@.subrange(from as int, to as int)),
{
    let mut a: usize = from;
    while a < to && is_whitespace(text[a])
        invariant
            from <= a <= to <= text.len(),
            trim_start(text@.subrange(from as int, to as int)) == trim_start(
                text@.subrange(a as int, to as int),
            ),
        decreases to - a,
    {
        proof {
            let t = text@.subrange(a as int, to as int);
            assert(t.drop_first() =~= text@.subrange(a + 1, to as int));
        }
        a += 1;
    }
    let mut b: usize = to;
    while a < b && is_whitespace(text[b - 1])
        invariant
            a <= b <= to <= text.len(),
            trim_end(text@.subrange(a as int, to as int)) == trim_end(
                text@.subrange(a as int, b as int),
            ),
        decreases b - a,
    {
        proof {
            let t = text@.subrange(a as int, b as int);
            assert(t.drop_last() =~= text@.subrange(a as int, b - 1));
        }
        b -= 1;
    }
    copy_range(text, a, b)
}

/// Tells whether `text` begins with `prefix`.
pub fn starts_with(text: &Vec<char>, prefix: &Vec<char>) -> (r: bool)
    ensures
        r == prefix@.is_prefix_of(text@),
{
    if prefix.len() > text.len() {
        return false;
    }
    let mut i: usize = 0;
    while i < prefix.len()
        invariant
            i <= prefix.len() <= text.len(),
            forall|j: int| 0 <= j < i ==> prefix@[j] == text@[j],
        decreases prefix.len() - i,
    {
        if prefix[i] != text[i] {
            proof {
                if prefix@.is_prefix_of(text@) {
                    assert(text@.subrange(0, prefix@.len() as int)[i as int] == prefix@[i as int]);
                }
            }
            return false;
        }
        i += 1;
    }
    assert(text@.subrange(0, prefix@.len() as int) =~= prefix@);
    true
}

/// The characters of a string.
pub fn chars_of(s: &str) -> (chars: Vec<char>)
    ensures
        chars@ == s@,
{
    let n = s.unicode_len();
    let mut chars: Vec<char> = Vec::new();
    let mut i: usize = 0;
    while i < n
        invariant
            n == s@.len(),
            i <= n,
            chars@ == s@.subrange(0, i as int),
        decreases n - i,
    {
        chars.push(s.get_char(i));
        i += 1;
        assert(chars@ =~= s@.subrange(0, i as int));
    }
    assert(s@.subrange(0, n as int) =~= s@);
    chars
}

/// `String::from_iter` over the characters of `chars`: the string made of
/// these characters, in their order.
#[verifier::external_body]
pub(crate) fn string_from_chars(chars: &Vec<char>) -> (s: String)
    ensures
        s@ == chars@,
{
    String::from_iter(chars.iter())
}

/// The texts `parts` in a row, with `sep` between each two.
pub open spec fn joined(parts: Seq<Seq<char>>, sep: Seq<char>) -> Seq<char>
    decreases parts.len(),
{
    if parts.len() == 0 {
        Seq::empty()
    } else if parts.len() == 1 {
        parts[0]
    } else {
        joined(parts.drop_last(), sep) + sep + parts.last()
    }
}

/// The contents of a sequence of string slices.
pub open spec fn strs_of(parts: Seq<&str>) -> Seq<Seq<char>> {
    Seq::new(parts.len(), |i: int| parts[i]@)
}

/// Joins string slices, with `sep` between each two.
pub fn join_strs(parts: &[&str], sep: &str) -> (text: String)
    ensures
        text@ == joined(strs_of(parts@), sep@),
{
    let mut text = String::new();
    let mut i: usize = 0;
    while i < parts.len()
        invariant
            i <= parts.len(),
            text@ == joined(strs_of(parts@).subrange(0, i as int), sep@),
        decreases parts.len() - i,
    {
        let ghost before = strs_of(parts@).subrange(0, i as int);
        let ghost now = strs_of(parts@).subrange(0, i + 1);
        proof {
            assert(now.drop_last() =~= before);
            assert(now.last() == parts@[i as int]@);
        }
        if i > 0 {
            text.append(sep);
        } else {
            proof {
                assert(text@ + parts@[i as int]@ =~= parts@[i as int]@);
            }
        }
        text.append(parts[i]);
        i += 1;
    }
    proof {
        assert(strs_of(parts@).subrange(0, parts@.len() as int) =~= strs_of(parts@));
    }
    text
}

/// The decimal digit for `d`.
pub open spec fn digit(d: int) -> char {
    if d == 0 {
        '0'
    } else if d == 1 {
        '1'
    } else if d == 2 {
        '2'
    } else if d == 3 {
        '3'
    } else if d == 4 {
        '4'
    } else if d == 5 {
        '5'
    } else if d == 6 {
        '6'
    } else if d == 7 {
        '7'
    } else if d == 8 {
        '8'
    } else {
        '9'
    }
}

/// The decimal numeral of `n`, without leading zeros.
pub open spec fn decimal(n: nat) -> Seq<char>
    decreases n,
{
    if n < 10 {
        seq![digit(n as int)]
    } else {
        decimal(n / 10).push(digit((n % 10) as int))
    }
}

/// The decimal digit for `d`.
pub fn digit_char(d: u8) -> (c: char)
    requires
        d < 10,
    ensures
        c == digit(d as int),
{
    if d == 0 {
        '0'
    } else if d == 1 {
        '1'
    } else if d == 2 {
        '2'
    } else if d == 3 {
        '3'
    } else if d == 4 {
        '4'
    } else if d == 5 {
        '5'
    } else if d == 6 {
        '6'
    } else if d == 7 {
        '7'
    } else if d == 8 {
        '8'
    } else {
        '9'
    }
}

/// Appends the decimal numeral of `n` to `out`.
pub fn push_decimal(out: &mut Vec<char>, n: usize)
    ensures
        final(out)@ == old(out)@ + decimal(n as nat),
    decreases n,
{
    if n >= 10 {
        push_decimal(out, n / 10);
    }
    out.push(digit_char((n % 10) as u8));
    proof {
        assert(final(out)@ =~= old(out)@ + decimal(n as nat));
    }
}

/// Tells whether `text` holds the character `c`.
pub fn contains_char(text: &Vec<char>, c: char) -> (r: bool)
    ensures
        r == text@.contains(c),
{
    let mut i: usize = 0;
    while i < text.len()
        invariant
            i <= text.len(),
            forall|j: int| 0 <= j < i ==> text@[j] != c,
        decreases text.len() - i,
    {
        if text[i] == c {
            return true;
        }
        i += 1;
    }
    false
}

} // verus!
