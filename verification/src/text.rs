//! Text as sequences of characters: words, replacement, decimal numerals.

use vstd::prelude::*;

verus! {

/// `String::push` of the standard library, taken on trust: it appends the
/// character to the end of the string and changes nothing else.
pub assume_specification[ String::push ](s: &mut String, ch: char)
    ensures
        final(s)@ == old(s)@.push(ch),
;

/// Whether the character is white space: the code points that Unicode gives
/// the property `White_Space`.
pub open spec fn white_space(c: char) -> bool {
    let n = c as u32;
    ||| 0x09 <= n <= 0x0d
    ||| n == 0x20
    ||| n == 0x85
    ||| n == 0xa0
    ||| n == 0x1680
    ||| 0x2000 <= n <= 0x200a
    ||| n == 0x2028
    ||| n == 0x2029
    ||| n == 0x202f
    ||| n == 0x205f
    ||| n == 0x3000
}

/// Whether the character is white space.
pub fn is_white_space(c: char) -> (r: bool)
    ensures
        r == white_space(c),
{
    let n: u32 = c as u32;
    (0x09 <= n && n <= 0x0d) || n == 0x20 || n == 0x85 || n == 0xa0 || n == 0x1680 || (0x2000 <= n
        && n <= 0x200a) || n == 0x2028 || n == 0x2029 || n == 0x202f || n == 0x205f || n == 0x3000
}

/// The words of a text: its longest runs of characters that are not white
/// space, in order.
pub open spec fn words(text: Seq<char>) -> Seq<Seq<char>>
    decreases text.len(),
{
    if text.len() == 0 {
        Seq::empty()
    } else if white_space(text.last()) {
        words(text.drop_last())
    } else if text.len() == 1 || white_space(text[text.len() - 2]) {
        words(text.drop_last()).push(seq![text.last()])
    } else {
        let before = words(text.drop_last());
        before.drop_last().push(before.last().push(text.last()))
    }
}

/// The views of the strings.
pub open spec fn string_views(strings: Seq<String>) -> Seq<Seq<char>> {
    strings.map_values(|s: String| s@)
}

/// Splits a text at white space. Returns its words; a text of white space
/// alone has none.
pub fn split_whitespace(text: &str) -> (out: Vec<String>)
    ensures
        string_views(out@) == words(text@),
{
    let mut out: Vec<String> = Vec::new();
    let mut word = String::new();
    let mut open = false;
    proof {
        assert(text@.take(0) =~= Seq::empty());
        assert(string_views(out@) =~= Seq::empty());
    }
    for c in it: text.chars()
        invariant
            it.seq() == text@,
            open <==> it.index() > 0 && !white_space(text@[it.index() - 1]),
            !open ==> string_views(out@) == words(text@.take(it.index() as int)),
            open ==> string_views(out@).push(word@) == words(text@.take(it.index() as int)),
            !open ==> word@.len() == 0,
    {
        let ghost i = it.index() as int;
        let ghost done = string_views(out@);
        let ghost before = word@;
        proof {
            assert(text@.take(i + 1).drop_last() =~= text@.take(i));
            assert(text@.take(i + 1).last() == c);
            if i > 0 {
                assert(text@.take(i + 1)[i - 1] == text@[i - 1]);
            }
        }
        if is_white_space(c) {
            if open {
                out.push(word);
                word = String::new();
                open = false;
                proof {
                    assert(string_views(out@) =~= done.push(before));
                }
            }
        } else {
            word.push(c);
            proof {
                if open {
                    let w = done.push(before);
                    assert(w.drop_last() =~= done);
                    assert(w.last() == before);
                } else {
                    assert(word@ =~= seq![c]);
                }
            }
            open = true;
        }
    }
    proof {
        assert(text@.take(text@.len() as int) =~= text@);
    }
    if open {
        let ghost done = string_views(out@);
        out.push(word);
        proof {
            assert(string_views(out@) =~= done.push(word@));
        }
    }
    out
}

/// The characters of a text.
pub fn chars_of(text: &str) -> (out: Vec<char>)
    ensures
        out@ == text@,
{
    let mut out: Vec<char> = Vec::new();
    for c in it: text.chars()
        invariant
            it.seq() == text@,
            out@ == text@.take(it.index() as int),
    {
        out.push(c);
    }
    out
}

/// The text in which each occurrence of `pattern` is replaced by `with`. The
/// occurrences are found from left to right and do not overlap.
pub open spec fn replaced(text: Seq<char>, pattern: Seq<char>, with: Seq<char>) -> Seq<char>
    recommends
        pattern.len() > 0,
    decreases text.len(),
{
    if pattern.len() == 0 || text.len() < pattern.len() {
        text
    } else if text.take(pattern.len() as int) == pattern {
        with + replaced(text.skip(pattern.len() as int), pattern, with)
    } else {
        seq![text[0]] + replaced(text.skip(1), pattern, with)
    }
}

/// Whether `pattern` stands in `text` at place `at`.
fn stands_at(text: &Vec<char>, at: usize, pattern: &Vec<char>) -> (r: bool)
    requires
        at + pattern@.len() <= text@.len(),
    ensures
        r == (text@.skip(at as int).take(pattern@.len() as int) == pattern@),
{
    let ghost window = text@.skip(at as int).take(pattern@.len() as int);
    let limit: usize = text.len();
    let mut j: usize = 0;
    while j < pattern.len()
        invariant
            j <= pattern@.len(),
            limit == text@.len(),
            at + pattern@.len() <= limit,
            window == text@.skip(at as int).take(pattern@.len() as int),
            forall|k: int| 0 <= k < j ==> window[k] == pattern@[k],
        decreases pattern@.len() - j,
    {
        if text[at + j] != pattern[j] {
            proof {
                assert(window[j as int] != pattern@[j as int]);
            }
            return false;
        }
        j = j + 1;
    }
    proof {
        assert(window =~= pattern@);
    }
    true
}

/// Replaces each occurrence of `pattern` in `text` by `with`, from left to
/// right. An empty pattern occurs nowhere.
pub fn replace_all(text: &str, pattern: &str, with: &str) -> (out: String)
    ensures
        out@ == replaced(text@, pattern@, with@),
{
    let source = chars_of(text);
    let wanted = chars_of(pattern);
    let mut out = String::new();
    if wanted.len() == 0 {
        out.append(text);
        proof {
            assert(out@ =~= text@);
        }
        return out;
    }
    let mut i: usize = 0;
    proof {
        assert(source@.skip(0) =~= source@);
        assert(out@ + replaced(source@, wanted@, with@) =~= replaced(source@, wanted@, with@));
    }
    while i < source.len()
        invariant
            i <= source@.len(),
            source@ == text@,
            wanted@ == pattern@,
            wanted@.len() > 0,
            out@ + replaced(source@.skip(i as int), wanted@, with@) == replaced(
                source@,
                wanted@,
                with@,
            ),
        decreases source@.len() - i,
    {
        let ghost rest = source@.skip(i as int);
        let ghost before = out@;
        if source.len() - i >= wanted.len() && stands_at(&source, i, &wanted) {
            out.append(with);
            proof {
                assert(rest.skip(wanted@.len() as int) =~= source@.skip(i + wanted@.len()));
                assert(out@ + replaced(source@.skip(i + wanted@.len()), wanted@, with@) =~= before
                    + replaced(rest, wanted@, with@));
            }
            i = i + wanted.len();
        } else {
            out.push(source[i]);
            proof {
                assert(rest.skip(1) =~= source@.skip(i + 1));
                assert(rest[0] == source@[i as int]);
                if rest.len() < wanted@.len() {
                    lemma_replaced_short(rest, wanted@, with@);
                    lemma_replaced_short(rest.skip(1), wanted@, with@);
                    assert(seq![rest[0]] + rest.skip(1) =~= rest);
                }
                assert(out@ + replaced(source@.skip(i + 1), wanted@, with@) =~= before + replaced(
                    rest,
                    wanted@,
                    with@,
                ));
            }
            i = i + 1;
        }
    }
    proof {
        assert(out@ + Seq::<char>::empty() =~= out@);
    }
    out
}

/// A text shorter than the pattern holds no occurrence of it.
pub proof fn lemma_replaced_short(text: Seq<char>, pattern: Seq<char>, with: Seq<char>)
    requires
        text.len() < pattern.len(),
    ensures
        replaced(text, pattern, with) == text,
{
}

/// The decimal digit of a number below ten.
pub open spec fn digit(n: nat) -> char
    recommends
        n < 10,
{
    ((n + 0x30) as u8) as char
}

/// The decimal numeral of a number, without leading zeros.
pub open spec fn decimal(n: nat) -> Seq<char>
    decreases n,
{
    if n < 10 {
        seq![digit(n)]
    } else {
        decimal(n / 10).push(digit(n % 10))
    }
}

/// Writes a number as its decimal numeral.
pub fn to_decimal(n: u64) -> (out: String)
    ensures
        out@ == decimal(n as nat),
{
    let mut digits: Vec<char> = Vec::new();
    let mut rest: u64 = n;
    while rest >= 10
        invariant
            decimal(n as nat) == decimal(rest as nat) + digits@.reverse(),
        decreases rest,
    {
        let d: u8 = (rest % 10) as u8;
        let ghost before = digits@;
        digits.push((d + 0x30) as char);
        proof {
            assert(digits@.reverse() =~= seq![digit((rest % 10) as nat)] + before.reverse());
            assert(decimal(rest as nat) == decimal((rest / 10) as nat).push(
                digit((rest % 10) as nat),
            ));
            assert(decimal(rest as nat) + before.reverse() =~= decimal((rest / 10) as nat)
                + digits@.reverse());
        }
        rest = rest / 10;
    }
    let mut out = String::new();
    out.push(((rest as u8) + 0x30) as char);
    let mut i: usize = digits.len();
    proof {
        assert(digits@.reverse().take(0) =~= Seq::<char>::empty());
        assert(out@ =~= decimal(rest as nat) + digits@.reverse().take(0));
    }
    while i > 0
        invariant
            i <= digits@.len(),
            out@ == decimal(rest as nat) + digits@.reverse().take(digits@.len() - i),
        decreases i,
    {
        let ghost before = out@;
        out.push(digits[i - 1]);
        proof {
            let r = digits@.reverse();
            let k = digits@.len() - i;
            assert(r[k] == digits@[i - 1]);
            assert(r.take(k + 1) =~= r.take(k).push(r[k]));
            assert(out@ =~= decimal(rest as nat) + r.take(k + 1));
        }
        i = i - 1;
    }
    proof {
        assert(digits@.reverse().take(digits@.len() as int) =~= digits@.reverse());
    }
    out
}

} // verus!
