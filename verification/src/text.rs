//! Texts as sequences of characters: reading the characters of a string,
//! splitting a text into lines, and writing characters to a string.

use vstd::prelude::*;
use vstd::std_specs::iter::IteratorSpec;

verus! {

/// `String::push` of std appends the character to the string.
pub assume_specification[ String::push ](s: &mut String, c: char)
    ensures
        final(s)@ == old(s)@.push(c),
;

/// The characters of `s`.
pub fn chars_of(s: &str) -> (chars: Vec<char>)
    ensures
        chars@ == s@,
{
    broadcast use vstd::string::group_string_axioms;

    let mut it = s.chars();
    let mut chars: Vec<char> = Vec::new();
    let mut more = true;
    while more
        invariant
            chars@ + it.remaining() == s@,
            !more ==> it.remaining().len() == 0,
            it.obeys_prophetic_iter_laws(),
            it.decrease() is Some,
        decreases
                if more {
                    it.decrease()->0 + 1
                } else {
                    0
                },
    {
        let ghost before = it.remaining();
        match it.next() {
            Some(c) => {
                chars.push(c);
                proof {
                    assert(chars@ + it.remaining() =~= chars@.drop_last() + before);
                }
            },
            None => {
                more = false;
            },
        }
    }
    proof {
        assert(chars@ + it.remaining() =~= chars@);
    }
    chars
}

/// A line without the carriage return that ends it, if one does.
pub open spec fn strip_return(line: Seq<char>) -> Seq<char> {
    if line.len() > 0 && line.last() == '\r' {
        line.drop_last()
    } else {
        line
    }
}

/// The lines that end with a line feed in `s`, and the characters after the
/// last line feed.
pub open spec fn scan_lines(s: Seq<char>) -> (Seq<Seq<char>>, Seq<char>)
    decreases s.len(),
{
    if s.len() == 0 {
        (Seq::empty(), Seq::empty())
    } else {
        let (lines, rest) = scan_lines(s.drop_last());
        if s.last() == '\n' {
            (lines.push(strip_return(rest)), Seq::empty())
        } else {
            (lines, rest.push(s.last()))
        }
    }
}

/// The lines of a text. A line ends with a line feed, or with a carriage
/// return and a line feed, neither of which belongs to it; what follows the
/// last line feed is a line of its own unless it is empty.
pub open spec fn text_lines(s: Seq<char>) -> Seq<Seq<char>> {
    let (lines, rest) = scan_lines(s);
    if rest.len() > 0 {
        lines.push(rest)
    } else {
        lines
    }
}

/// The views of the rows of a table of characters.
pub open spec fn rows_of(lines: Seq<Vec<char>>) -> Seq<Seq<char>> {
    Seq::new(lines.len(), |i: int| lines[i]@)
}

/// The lines of the text `chars`.
pub fn split_lines(chars: &Vec<char>) -> (lines: Vec<Vec<char>>)
    ensures
        rows_of(lines@) == text_lines(chars@),
{
    let mut lines: Vec<Vec<char>> = Vec::new();
    let mut rest: Vec<char> = Vec::new();
    let mut i: usize = 0;
    assert(chars@.take(0) =~= Seq::<char>::empty());
    assert(rows_of(lines@) =~= Seq::<Seq<char>>::empty());
    while i < chars.len()
        invariant
            i <= chars@.len(),
            (rows_of(lines@), rest@) == scan_lines(chars@.take(i as int)),
        decreases chars@.len() - i,
    {
        let c = chars[i];
        let ghost lines_before = rows_of(lines@);
        let ghost rest_before = rest@;
        proof {
            assert(chars@.take(i + 1).drop_last() =~= chars@.take(i as int));
            assert(chars@.take(i + 1).last() == c);
        }
        if c == '\n' {
            if rest.len() > 0 && rest[rest.len() - 1] == '\r' {
                rest.pop();
            }
            assert(rest@ =~= strip_return(rest_before));
            lines.push(rest);
            rest = Vec::new();
            proof {
                assert(rows_of(lines@) =~= lines_before.push(strip_return(rest_before)));
                assert(rest@ =~= Seq::<char>::empty());
            }
        } else {
            rest.push(c);
        }
        i += 1;
    }
    proof {
        assert(chars@.take(chars@.len() as int) =~= chars@);
    }
    if rest.len() > 0 {
        let ghost lines_before = rows_of(lines@);
        let ghost last = rest@;
        lines.push(rest);
        proof {
            assert(rows_of(lines@) =~= lines_before.push(last));
        }
    }
    lines
}

/// Scanning a text and then a line without a line feed leaves the lines as
/// they were and adds the line to the rest.
pub proof fn lemma_scan_append(s: Seq<char>, line: Seq<char>)
    requires
        forall|i: int| 0 <= i < line.len() ==> line[i] != '\n',
    ensures
        scan_lines(s + line) == (scan_lines(s).0, scan_lines(s).1 + line),
    decreases line.len(),
{
    if line.len() == 0 {
        assert(s + line =~= s);
        assert(scan_lines(s).1 + line =~= scan_lines(s).1);
    } else {
        let shorter = line.drop_last();
        lemma_scan_append(s, shorter);
        assert((s + line).drop_last() =~= s + shorter);
        assert((s + line).last() == line.last());
        assert(scan_lines(s).1 + line =~= (scan_lines(s).1 + shorter).push(line.last()));
    }
}

/// Scanning a text that ends on a line feed, and then a line that ends on
/// `#` and a line feed, adds that line to the lines.
pub proof fn lemma_scan_line(s: Seq<char>, line: Seq<char>)
    requires
        scan_lines(s).1.len() == 0,
        forall|i: int| 0 <= i < line.len() ==> line[i] != '\n',
        line.len() > 0 ==> line.last() != '\r',
    ensures
        scan_lines(s + line + seq!['\n']) == (scan_lines(s).0.push(line), Seq::<char>::empty()),
{
    lemma_scan_append(s, line);
    let whole = s + line + seq!['\n'];
    assert(whole.drop_last() =~= s + line);
    assert(whole.last() == '\n');
    assert(scan_lines(s).1 + line =~= line);
}

} // verus!
