use vstd::prelude::*;
use vstd::string::StringExecFns;

verus! {

/// Calls `String::push`: the character is added at the end.
#[verifier::external_body]
pub(crate) fn push_char(text: &mut String, c: char)
    ensures
        final(text)@ == old(text)@.push(c),
{
    text.push(c);
}

/// The characters of a string, in order.
pub fn chars_of(text: &str) -> (r: Vec<char>)
    ensures
        r@ == text@,
{
    broadcast use vstd::string::axiom_spec_iter;

    let mut out: Vec<char> = Vec::new();
    for c in it: text.chars()
        invariant
            out@ == it.seq().take(it.index() as int),
            it.seq() == text@,
    {
        out.push(c);
        proof {
            assert(it.seq().take(it.index() + 1) =~= it.seq().take(it.index() as int).push(c));
        }
    }
    out
}

/// A string of the given characters.
pub fn string_of(chars: &[char]) -> (r: String)
    ensures
        r@ == chars@,
{
    let mut out = String::new();
    let mut i: usize = 0;
    while i < chars.len()
        invariant
            i <= chars@.len(),
            out@ == chars@.take(i as int),
        decreases chars@.len() - i,
    {
        push_char(&mut out, chars[i]);
        proof {
            assert(chars@.take(i + 1) =~= chars@.take(i as int).push(chars@[i as int]));
        }
        i = i + 1;
    }
    proof {
        assert(chars@.take(i as int) =~= chars@);
    }
    out
}

/// A string of the characters of `chars` from `from` up to `to`.
pub fn string_between(chars: &Vec<char>, from: usize, to: usize) -> (r: String)
    requires
        from <= to <= chars@.len(),
    ensures
        r@ == chars@.subrange(from as int, to as int),
{
    let mut out = String::new();
    let mut i: usize = from;
    while i < to
        invariant
            from <= i <= to <= chars@.len(),
            out@ == chars@.subrange(from as int, i as int),
        decreases to - i,
    {
        push_char(&mut out, chars[i]);
        proof {
            assert(chars@.subrange(from as int, i + 1) =~= chars@.subrange(from as int, i as int).push(
                chars@[i as int],
            ));
        }
        i = i + 1;
    }
    out
}

/// Whether a character has the Unicode White_Space property, which `char::is_whitespace` tests.
pub open spec fn is_white_space(c: char) -> bool {
    ||| '\u{9}' <= c <= '\u{d}'
    ||| c == ' '
    ||| c == '\u{85}'
    ||| c == '\u{a0}'
    ||| c == '\u{1680}'
    ||| '\u{2000}' <= c <= '\u{200a}'
    ||| c == '\u{2028}'
    ||| c == '\u{2029}'
    ||| c == '\u{202f}'
    ||| c == '\u{205f}'
    ||| c == '\u{3000}'
}

/// Whether a character has the Unicode White_Space property.
pub fn white_space(c: char) -> (r: bool)
    ensures
        r == is_white_space(c),
{
    ('\u{9}' <= c && c <= '\u{d}') || c == ' ' || c == '\u{85}' || c == '\u{a0}' || c == '\u{1680}'
        || ('\u{2000}' <= c && c <= '\u{200a}') || c == '\u{2028}' || c == '\u{2029}' || c
        == '\u{202f}' || c == '\u{205f}' || c == '\u{3000}'
}

/// The characters without the white space at their end.
pub open spec fn trimmed_end(text: Seq<char>) -> Seq<char>
    decreases text.len(),
{
    if text.len() > 0 && is_white_space(text.last()) {
        trimmed_end(text.drop_last())
    } else {
        text
    }
}

/// The text without the white space at its end, as `str::trim_end` gives it.
pub fn trim_end(text: &str) -> (r: String)
    ensures
        r@ == trimmed_end(text@),
{
    let chars = chars_of(text);
    let mut end: usize = chars.len();
    assert(chars@.take(end as int) =~= chars@);
    while end > 0 && white_space(chars[end - 1])
        invariant
            end <= chars@.len(),
            trimmed_end(chars@) == trimmed_end(chars@.take(end as int)),
        decreases end,
    {
        proof {
            assert(chars@.take(end as int).drop_last() =~= chars@.take(end - 1));
        }
        end = end - 1;
    }
    proof {
        assert(chars@.take(end as int) =~= chars@.subrange(0, end as int));
    }
    string_between(&chars, 0, end)
}

/// The place of the first line feed in the text, or its length when it has none.
pub open spec fn first_newline(text: Seq<char>) -> int
    decreases text.len(),
{
    if text.len() == 0 {
        0
    } else if text[0] == '\n' {
        0
    } else {
        1 + first_newline(text.drop_first())
    }
}

/// A line without the carriage return that ended it, if any.
pub open spec fn without_cr(line: Seq<char>) -> Seq<char> {
    if line.len() > 0 && line.last() == '\r' {
        line.drop_last()
    } else {
        line
    }
}

/// The lines of a text, as `str::lines` gives them: split at line feeds, each without a
/// carriage return before its line feed, with no empty line after a final line feed.
pub open spec fn lines_of(text: Seq<char>) -> Seq<Seq<char>>
    decreases text.len(),
{
    if text.len() == 0 {
        Seq::empty()
    } else {
        let i = first_newline(text);
        if 0 <= i < text.len() {
            seq![without_cr(text.take(i))] + lines_of(text.skip(i + 1))
        } else {
            seq![text]
        }
    }
}

proof fn lemma_first_newline(text: Seq<char>, m: int)
    requires
        0 <= m <= text.len(),
        forall|k: int| 0 <= k < m ==> text[k] != '\n',
        m == text.len() || text[m] == '\n',
    ensures
        first_newline(text) == m,
    decreases m,
{
    if m > 0 {
        lemma_first_newline(text.drop_first(), m - 1);
    }
}

/// The lines of a text, as `str::lines` gives them.
pub fn split_lines(text: &str) -> (r: Vec<String>)
    ensures
        r@.map_values(|s: String| s@) == lines_of(text@),
{
    let chars = chars_of(text);
    let n = chars.len();
    let mut out: Vec<String> = Vec::new();
    let mut pos: usize = 0;
    assert(chars@.skip(0) =~= chars@);
    assert(out@.map_values(|s: String| s@) + lines_of(chars@) =~= lines_of(chars@));
    while pos < n
        invariant
            n == chars@.len(),
            pos <= n,
            lines_of(chars@) == out@.map_values(|s: String| s@) + lines_of(chars@.skip(pos as int)),
        decreases n - pos,
    {
        let mut j: usize = pos;
        while j < n && chars[j] != '\n'
            invariant
                n == chars@.len(),
                pos <= j <= n,
                forall|k: int| pos <= k < j ==> chars@[k] != '\n',
            decreases n - j,
        {
            j = j + 1;
        }
        let ghost rest = chars@.skip(pos as int);
        proof {
            lemma_first_newline(rest, j - pos);
        }
        let ghost before = out@;
        if j == n {
            let line = string_between(&chars, pos, n);
            out.push(line);
            proof {
                assert(chars@.subrange(pos as int, n as int) =~= rest);
                assert(out@.map_values(|s: String| s@) =~= before.map_values(|s: String| s@).push(rest));
                assert(chars@.skip(n as int) =~= Seq::<char>::empty());
                assert(lines_of(chars@.skip(n as int)) =~= Seq::<Seq<char>>::empty());
                assert(lines_of(rest) == seq![rest]);
                assert(before.map_values(|s: String| s@) + seq![rest] =~= out@.map_values(|s: String| s@)
                    + Seq::<Seq<char>>::empty());
            }
            pos = n;
        } else {
            let end = if j > pos && chars[j - 1] == '\r' {
                j - 1
            } else {
                j
            };
            let line = string_between(&chars, pos, end);
            out.push(line);
            proof {
                let piece = rest.take(j - pos);
                assert(piece =~= chars@.subrange(pos as int, j as int));
                assert(line@ =~= without_cr(piece));
                assert(rest.skip(j - pos + 1) =~= chars@.skip(j + 1));
                assert(lines_of(rest) == seq![without_cr(piece)] + lines_of(rest.skip(j - pos + 1)));
                assert(out@.map_values(|s: String| s@) =~= before.map_values(|s: String| s@).push(line@));
                assert(before.map_values(|s: String| s@) + (seq![line@] + lines_of(chars@.skip(j + 1)))
                    =~= out@.map_values(|s: String| s@) + lines_of(chars@.skip(j + 1)));
            }
            pos = j + 1;
        }
    }
    proof {
        assert(chars@.skip(pos as int) =~= Seq::<char>::empty());
        assert(out@.map_values(|s: String| s@) + Seq::<Seq<char>>::empty() =~= out@.map_values(
            |s: String| s@,
        ));
    }
    out
}

proof fn lemma_before_first_newline(text: Seq<char>)
    ensures
        0 <= first_newline(text) <= text.len(),
        forall|k: int| 0 <= k < first_newline(text) ==> text[k] != '\n',
        first_newline(text) < text.len() ==> text[first_newline(text)] == '\n',
    decreases text.len(),
{
    if text.len() > 0 && text[0] != '\n' {
        lemma_before_first_newline(text.drop_first());
        assert forall|k: int| 0 <= k < first_newline(text) implies text[k] != '\n' by {
            if k > 0 {
                assert(text[k] == text.drop_first()[k - 1]);
            }
        }
    }
}

/// No line of a text holds a line feed.
pub proof fn lemma_lines_have_no_newline(text: Seq<char>)
    ensures
        forall|k: int| 0 <= k < lines_of(text).len() ==> !(#[trigger] lines_of(text)[k]).contains('\n'),
    decreases text.len(),
{
    if text.len() > 0 {
        let i = first_newline(text);
        lemma_before_first_newline(text);
        if 0 <= i < text.len() {
            lemma_lines_have_no_newline(text.skip(i + 1));
            let first = without_cr(text.take(i));
            assert(!first.contains('\n')) by {
                if first.contains('\n') {
                    let m = choose|m: int| 0 <= m < first.len() && first[m] == '\n';
                    assert(text.take(i)[m] == '\n');
                }
            }
            let all = lines_of(text);
            assert(all == seq![first] + lines_of(text.skip(i + 1)));
            assert forall|k: int| 0 <= k < all.len() implies !(#[trigger] all[k]).contains('\n') by {
                if k > 0 {
                    assert(all[k] == lines_of(text.skip(i + 1))[k - 1]);
                }
            }
        } else {
            assert(!text.contains('\n'));
        }
    }
}

/// The text in lower case, as `str::to_lowercase` gives it by the Unicode case tables.
pub uninterp spec fn lowercase(text: Seq<char>) -> Seq<char>;

/// Calls `str::to_lowercase`. Its result is named: it depends on the text alone.
#[verifier::external_body]
pub(crate) fn to_lowercase(text: &str) -> (r: String)
    ensures
        r@ == lowercase(text@),
{
    text.to_lowercase()
}

/// Whether two texts hold the same characters.
pub fn same_text(a: &str, b: &str) -> (r: bool)
    ensures
        r == (a@ == b@),
{
    let x = chars_of(a);
    let y = chars_of(b);
    if x.len() != y.len() {
        assert(x@.len() != y@.len());
        return false;
    }
    let mut i: usize = 0;
    while i < x.len()
        invariant
            i <= x@.len(),
            x@ == a@,
            y@ == b@,
            x@.len() == y@.len(),
            forall|k: int| 0 <= k < i ==> x@[k] == y@[k],
        decreases x@.len() - i,
    {
        if x[i] != y[i] {
            assert(x@[i as int] != y@[i as int]);
            assert(a@ != b@);
            return false;
        }
        i = i + 1;
    }
    assert(x@ =~= y@);
    true
}

/// The decimal digits of a number.
pub open spec fn decimal(n: nat) -> Seq<char>
    decreases n,
{
    if n < 10 {
        seq![digit(n)]
    } else {
        decimal(n / 10) + seq![digit(n % 10)]
    }
}

/// The character of a decimal digit.
pub open spec fn digit(d: nat) -> char {
    if d == 0 {
        '0'
    } else if d == 1 {
        '1'
    } else if d == 2 {
        '2'
    } else if d == 3 {
        '3'
    } else if d == 4 {
        '4'
    } else if d == 5 {
        '5'
    } else if d == 6 {
        '6'
    } else if d == 7 {
        '7'
    } else if d == 8 {
        '8'
    } else {
        '9'
    }
}

fn digit_char(d: usize) -> (r: char)
    requires
        d < 10,
    ensures
        r == digit(d as nat),
{
    if d == 0 {
        '0'
    } else if d == 1 {
        '1'
    } else if d == 2 {
        '2'
    } else if d == 3 {
        '3'
    } else if d == 4 {
        '4'
    } else if d == 5 {
        '5'
    } else if d == 6 {
        '6'
    } else if d == 7 {
        '7'
    } else if d == 8 {
        '8'
    } else {
        '9'
    }
}

/// A number written in decimal.
pub fn decimal_text(n: usize) -> (r: String)
    ensures
        r@ == decimal(n as nat),
    decreases n,
{
    if n < 10 {
        let mut out = String::new();
        push_char(&mut out, digit_char(n));
        assert(out@ =~= seq![digit(n as nat)]);
        out
    } else {
        let mut out = decimal_text(n / 10);
        push_char(&mut out, digit_char(n % 10));
        out
    }
}

/// The text without the given character at its start and its end, as `str::trim_matches` with
/// a character gives it.
pub open spec fn trimmed_of(text: Seq<char>, c: char) -> Seq<char>
    decreases text.len(),
{
    if text.len() > 0 && text[0] == c {
        trimmed_of(text.drop_first(), c)
    } else if text.len() > 0 && text.last() == c {
        trimmed_of(text.drop_last(), c)
    } else {
        text
    }
}

/// The text without the given character at its start and its end.
pub fn trim_char(text: &str, c: char) -> (r: String)
    ensures
        r@ == trimmed_of(text@, c),
{
    let chars = chars_of(text);
    let mut from: usize = 0;
    let mut to: usize = chars.len();
    assert(chars@.subrange(0, to as int) =~= chars@);
    while from < to && chars[from] == c
        invariant
            from <= to == chars@.len(),
            trimmed_of(chars@, c) == trimmed_of(chars@.subrange(from as int, to as int), c),
        decreases to - from,
    {
        proof {
            assert(chars@.subrange(from as int, to as int).drop_first() =~= chars@.subrange(from + 1, to as int));
        }
        from = from + 1;
    }
    while from < to && chars[to - 1] == c
        invariant
            from <= to <= chars@.len(),
            from == to || chars@[from as int] != c,
            trimmed_of(chars@, c) == trimmed_of(chars@.subrange(from as int, to as int), c),
        decreases to - from,
    {
        proof {
            let t = chars@.subrange(from as int, to as int);
            assert(t[0] == chars@[from as int]);
            assert(t.drop_last() =~= chars@.subrange(from as int, to - 1));
        }
        to = to - 1;
    }
    proof {
        let t = chars@.subrange(from as int, to as int);
        if t.len() > 0 {
            assert(t[0] == chars@[from as int]);
            assert(t.last() == chars@[to - 1]);
        }
    }
    string_between(&chars, from, to)
}

} // verus!
