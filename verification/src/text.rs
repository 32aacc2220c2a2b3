//! Plain text: wrapping a sentence into lines, and trimming line ends.

use vstd::prelude::*;
use vstd::string::*;
use vstd::utf8::encode_utf8;
use crate::failure::texts;

verus! {

/// Whether `c` parts two words: a space or a tab.
pub open spec fn is_blank(c: char) -> bool {
    c == ' ' || c == '\t'
}

/// The words of `s`: its longest runs of characters that are not blank, in
/// order.
pub open spec fn words(s: Seq<char>) -> Seq<Seq<char>>
    decreases s.len(),
{
    if s.len() == 0 {
        Seq::empty()
    } else if is_blank(s.last()) {
        words(s.drop_last())
    } else if s.len() >= 2 && !is_blank(s[s.len() - 2]) {
        let before = words(s.drop_last());
        before.drop_last().push(before.last().push(s.last()))
    } else {
        words(s.drop_last()).push(seq![s.last()])
    }
}

/// The number of bytes that `s` takes in UTF-8.
pub open spec fn byte_len(s: Seq<char>) -> nat {
    encode_utf8(s).len()
}

/// The lines `before`, with one more word. The word is followed by a space.
/// It opens a new line where the last line is not empty and would, with the
/// word, reach `at` bytes.
pub open spec fn with_word(before: Seq<Seq<char>>, word: Seq<char>, at: int) -> Seq<Seq<char>> {
    let line = before.last();
    if line.len() > 0 && byte_len(line) + byte_len(word) >= at {
        before.push(word.push(' '))
    } else {
        before.drop_last().push(line + word.push(' '))
    }
}

/// The lines that `words` fill, one word after the other, from one empty
/// line.
pub open spec fn lines(words: Seq<Seq<char>>, at: int) -> Seq<Seq<char>>
    decreases words.len(),
{
    if words.len() == 0 {
        seq![Seq::empty()]
    } else {
        with_word(lines(words.drop_last(), at), words.last(), at)
    }
}

/// The lines, with a line feed between each two.
pub open spec fn joined(lines: Seq<Seq<char>>) -> Seq<char>
    decreases lines.len(),
{
    if lines.len() == 0 {
        Seq::empty()
    } else if lines.len() == 1 {
        lines[0]
    } else {
        joined(lines.drop_last()) + seq!['\n'] + lines.last()
    }
}

/// `s` wrapped at `at` bytes.
pub open spec fn wrapped(s: Seq<char>, at: usize) -> Seq<char> {
    joined(lines(words(s), at as int))
}

/// Only the empty text takes no bytes.
proof fn lemma_byte_len_zero(s: Seq<char>)
    ensures
        byte_len(s) == 0 <==> s.len() == 0,
{
    if s.len() > 0 {
        assert(vstd::utf8::encode_scalar(s[0] as u32).len() >= 1);
    }
}

/// Wraps `s` into lines of words. Words are parted by spaces and tabs; in the
/// result each is followed by one space, and the lines are parted by line
/// feeds. A word goes to a new line where the line so far is not empty and
/// would, with the word, reach `at` bytes.
pub fn wrap_at(s: &str, at: usize) -> (r: String)
    ensures
        r@ == wrapped(s@, at),
{
    let n = s.unicode_len();
    let mut done: Vec<String> = Vec::new();
    let mut line = String::new();
    let mut start: usize = 0;
    let mut i: usize = 0;
    proof {
        assert(s@.take(0) =~= Seq::<char>::empty());
    }
    for c in chars: s.chars()
        invariant
            i == chars.index(),
            chars.seq() == s@,
            n == s@.len(),
            start <= i <= n,
            forall|k: int| start <= k < i ==> !is_blank(s@[k]),
            start > 0 ==> is_blank(s@[start - 1]),
            ({
                let seen = words(s@.take(i as int));
                let whole = if start < i {
                    seen.drop_last()
                } else {
                    seen
                };
                &&& start < i ==> seen.len() > 0 && seen.last() == s@.subrange(
                    start as int,
                    i as int,
                )
                &&& texts(done@).push(line@) == lines(whole, at as int)
            }),
    {
        proof {
            let next = s@.take(i + 1);
            assert(next.drop_last() =~= s@.take(i as int));
            assert(next.last() == c);
            if i > 0 {
                assert(next[next.len() - 2] == s@[i - 1]);
            }
        }
        if c == ' ' || c == '\t' {
            if start < i {
                let word = s.substring_char(start, i);
                push_word(&mut done, &mut line, word, at);
            }
            start = i + 1;
        } else {
            proof {
                let seen = words(s@.take(i as int));
                let next = words(s@.take(i + 1));
                assert(s@.subrange(start as int, i + 1) =~= s@.subrange(start as int, i as int).push(c));
                if start < i {
                    assert(next.drop_last() =~= seen.drop_last());
                } else {
                    assert(s@.subrange(start as int, i + 1) =~= seq![c]);
                    assert(next.drop_last() =~= seen);
                }
            }
        }
        i += 1;
    }
    proof {
        assert(s@.take(n as int) =~= s@);
    }
    if start < i {
        let word = s.substring_char(start, i);
        push_word(&mut done, &mut line, word, at);
    }
    let ghost last = line@;
    let ghost before = texts(done@);
    done.push(line);
    assert(texts(done@) =~= before.push(last));
    join_lines(&done)
}

/// Adds `word` to the lines: to `line`, or, where `line` is full, to a line of
/// its own, `line` going to `done`.
fn push_word(done: &mut Vec<String>, line: &mut String, word: &str, at: usize)
    ensures
        texts(final(done)@).push(final(line)@) == with_word(
            texts(old(done)@).push(old(line)@),
            word@,
            at as int,
        ),
{
    let have = line.as_str().as_bytes().len();
    let full = have > 0 && (have >= at || word.as_bytes().len() >= at - have);
    let ghost before = texts(done@).push(line@);
    proof {
        lemma_byte_len_zero(line@);
        assert(before.last() == line@);
        assert(before.drop_last() =~= texts(done@));
        assert(full <==> line@.len() > 0 && byte_len(line@) + byte_len(word@) >= at);
        reveal_strlit(" ");
        assert(" "@ =~= seq![' ']);
    }
    if full {
        let mut fresh = String::from_str(word);
        fresh.append(" ");
        let mut whole = String::new();
        std::mem::swap(line, &mut whole);
        done.push(whole);
        *line = fresh;
        proof {
            assert(line@ =~= word@.push(' '));
            assert(texts(done@) =~= before);
        }
    } else {
        line.append(word);
        line.append(" ");
        proof {
            assert(line@ =~= old(line)@ + word@.push(' '));
            assert(texts(done@).push(line@) =~= before.drop_last().push(line@));
        }
    }
}

/// The lines in one text, with a line feed between each two.
fn join_lines(lines: &Vec<String>) -> (r: String)
    ensures
        r@ == joined(texts(lines@)),
{
    let mut out = String::new();
    let mut i: usize = 0;
    while i < lines.len()
        invariant
            i <= lines.len(),
            out@ == joined(texts(lines@).take(i as int)),
        decreases lines.len() - i,
    {
        proof {
            let next = texts(lines@).take(i + 1);
            assert(next.drop_last() =~= texts(lines@).take(i as int));
            assert(next.last() == lines[i as int]@);
            reveal_strlit("\n");
            assert("\n"@ =~= seq!['\n']);
        }
        if i > 0 {
            out.append("\n");
        }
        out.append(lines[i].as_str());
        proof {
            if i == 0 {
                assert(out@ =~= lines[0]@);
            }
        }
        i += 1;
    }
    proof {
        assert(texts(lines@).take(lines.len() as int) =~= texts(lines@));
    }
    out
}

/// `s` without the line feeds at its end.
pub open spec fn trimmed(s: Seq<char>) -> Seq<char>
    decreases s.len(),
{
    if s.len() > 0 && s.last() == '\n' {
        trimmed(s.drop_last())
    } else {
        s
    }
}

/// `s` without the line feeds at its end.
pub fn trim_line_ends(s: &str) -> (r: String)
    ensures
        r@ == trimmed(s@),
{
    let mut end = s.unicode_len();
    proof {
        assert(s@.take(end as int) =~= s@);
    }
    while end > 0 && s.get_char(end - 1) == '\n'
        invariant
            end <= s@.len(),
            trimmed(s@) == trimmed(s@.take(end as int)),
        decreases end,
    {
        proof {
            assert(s@.take(end as int).drop_last() =~= s@.take(end - 1));
        }
        end -= 1;
    }
    proof {
        assert(s@.subrange(0, end as int) =~= s@.take(end as int));
    }
    String::from_str(s.substring_char(0, end))
}

/// Wraps a help text at 70 bytes.
pub fn wrap_help(s: &str) -> (r: String)
    ensures
        r@ == wrapped(s@, 70),
{
    wrap_at(s, 70)
}

} // verus!

