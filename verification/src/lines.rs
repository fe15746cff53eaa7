//! The lines of a word file: a text is split at its line feeds, and each
//! line is stripped of the white space at its two ends.

use crate::words::views;
use vstd::prelude::*;
use vstd::std_specs::iter::IteratorSpec;
use vstd::string::*;

verus! {

/// White space, as Unicode lists it: tab to carriage return, the space, the
/// next-line control, the no-break space, and the spaces and separators of
/// the general punctuation and ideographic blocks.
pub open spec fn is_space(c: char) -> bool {
    let u = c as int;
    ||| 0x09 <= u <= 0x0D
    ||| u == 0x20
    ||| u == 0x85
    ||| u == 0xA0
    ||| u == 0x1680
    ||| 0x2000 <= u <= 0x200A
    ||| u == 0x2028
    ||| u == 0x2029
    ||| u == 0x202F
    ||| u == 0x205F
    ||| u == 0x3000
}

/// `s` without the white space at its two ends.
pub open spec fn trimmed(s: Seq<char>) -> Seq<char>
    decreases s.len(),
{
    if s.len() == 0 {
        s
    } else if is_space(s[0]) {
        trimmed(s.drop_first())
    } else if is_space(s.last()) {
        trimmed(s.drop_last())
    } else {
        s
    }
}

/// Where the first line of `s` ends: the index of its first line feed, or
/// its length if it has none.
pub open spec fn first_line_end(s: Seq<char>) -> nat
    decreases s.len(),
{
    if s.len() == 0 || s[0] == '\n' {
        0
    } else {
        1 + first_line_end(s.drop_first())
    }
}

/// The lines of `s`: the stretches between its line feeds. A line feed at
/// the very end of the text ends the last line and begins no further one.
pub open spec fn split_lines(s: Seq<char>) -> Seq<Seq<char>>
    decreases s.len(),
{
    if s.len() == 0 {
        Seq::empty()
    } else if first_line_end(s) >= s.len() {
        seq![s]
    } else {
        seq![s.take(first_line_end(s) as int)] + split_lines(s.skip(first_line_end(s) as int + 1))
    }
}

/// The lines of `s`, each without the white space at its two ends.
pub open spec fn trimmed_lines_of(s: Seq<char>) -> Seq<Seq<char>> {
    Seq::new(split_lines(s).len(), |i: int| trimmed(split_lines(s)[i]))
}

/// Every symbol of `s` is white space.
pub open spec fn all_space(s: Seq<char>) -> bool {
    forall|i: int| 0 <= i < s.len() ==> is_space(#[trigger] s[i])
}

/// `s` is empty, or begins and ends with a symbol that is not white space.
pub open spec fn is_trimmed(s: Seq<char>) -> bool {
    s.len() > 0 ==> !is_space(s[0]) && !is_space(s.last())
}

/// Stripping leaves the middle of white space, a stripped stretch, and
/// white space.
proof fn lemma_trimmed_middle(lead: Seq<char>, body: Seq<char>, gap: Seq<char>)
    requires
        all_space(lead),
        all_space(gap),
        is_trimmed(body),
    ensures
        trimmed(lead + body + gap) == body,
    decreases lead.len() + gap.len(),
{
    let s = lead + body + gap;
    if lead.len() > 0 {
        assert(s[0] == lead[0]);
        assert(s.drop_first() =~= lead.drop_first() + body + gap);
        lemma_trimmed_middle(lead.drop_first(), body, gap);
    } else if gap.len() > 0 {
        assert(s.last() == gap.last());
        assert(s.drop_last() =~= lead + body + gap.drop_last());
        if body.len() > 0 {
            assert(s[0] == body[0]);
            lemma_trimmed_middle(lead, body, gap.drop_last());
        } else {
            assert(s[0] == gap[0]);
            assert(s.drop_first() =~= lead + body + gap.drop_first());
            lemma_trimmed_middle(lead, body, gap.drop_first());
        }
    } else {
        assert(s =~= body);
        if body.len() > 0 {
        }
    }
}

/// A stretch without a line feed, ended by a line feed or by the end of the
/// text, is the first line.
proof fn lemma_first_line_end(s: Seq<char>, k: int)
    requires
        0 <= k <= s.len(),
        forall|i: int| 0 <= i < k ==> #[trigger] s[i] != '\n',
        k < s.len() ==> s[k] == '\n',
    ensures
        first_line_end(s) == k,
    decreases k,
{
    if k > 0 {
        let rest = s.drop_first();
        assert forall|i: int| 0 <= i < k - 1 implies #[trigger] rest[i] != '\n' by {
            assert(rest[i] == s[i + 1]);
        }
        lemma_first_line_end(rest, k - 1);
    }
}

/// Whether `c` is white space.
pub fn is_space_char(c: char) -> (b: bool)
    ensures
        b == is_space(c),
{
    let u = c as u32;
    (0x09 <= u && u <= 0x0D) || u == 0x20 || u == 0x85 || u == 0xA0 || u == 0x1680 || (0x2000
        <= u && u <= 0x200A) || u == 0x2028 || u == 0x2029 || u == 0x202F || u == 0x205F || u
        == 0x3000
}

/// The lines of `text`, each without the white space at its two ends, in
/// order. Empty lines are kept.
pub fn trimmed_lines(text: &str) -> (lines: Vec<String>)
    ensures
        views(lines@) == trimmed_lines_of(text@),
{
    let ghost all = text@;
    let mut lines: Vec<String> = Vec::new();
    let mut line = String::new();
    let mut gap = String::new();
    let mut open = false;
    let mut it = text.chars();
    let ghost mut seen: int = 0;
    let ghost mut start: int = 0;
    let ghost mut lead: Seq<char> = Seq::empty();
    let ghost mut done: Seq<Seq<char>> = Seq::empty();
    proof {
        axiom_spec_iter(text);
        assert(all.skip(0) =~= all);
        assert(all.subrange(0, 0) =~= lead + line@ + gap@);
    }
    loop
        invariant
            all == text@,
            0 <= start <= seen <= all.len(),
            it.remaining() == all.skip(seen),
            split_lines(all) == done + split_lines(all.skip(start)),
            lines@.len() == done.len(),
            forall|i: int| 0 <= i < done.len() ==> (#[trigger] lines@[i])@ == trimmed(done[i]),
            forall|i: int| start <= i < seen ==> #[trigger] all[i] != '\n',
            all.subrange(start, seen) == lead + line@ + gap@,
            all_space(lead),
            all_space(gap@),
            is_trimmed(line@),
            line@.len() == 0 ==> gap@.len() == 0,
            open == (start < seen),
        decreases all.len() - seen,
    {
        let ghost before = it;
        let step = it.next();
        proof {
            next_postcondition(&before, &it, step);
        }
        let ghost segment = all.subrange(start, seen);
        let ghost tail = all.skip(start);
        match step {
            Some(c) => {
                proof {
                    assert(all.skip(seen).drop_first() =~= all.skip(seen + 1));
                    assert(c == all[seen]);
                    assert(all.subrange(start, seen + 1) =~= segment.push(c));
                }
                if c == '\n' {
                    proof {
                        assert forall|i: int| 0 <= i < seen - start implies #[trigger] tail[i]
                            != '\n' by {
                            assert(tail[i] == all[start + i]);
                        }
                        lemma_first_line_end(tail, seen - start);
                        assert(tail.take(seen - start) =~= segment);
                        assert(tail.skip(seen - start + 1) =~= all.skip(seen + 1));
                        lemma_trimmed_middle(lead, line@, gap@);
                        let grown = done.push(segment);
                        assert(done + (seq![segment] + split_lines(all.skip(seen + 1))) =~= grown
                            + split_lines(all.skip(seen + 1)));
                        done = grown;
                        start = seen + 1;
                        lead = Seq::empty();
                    }
                    lines.push(line);
                    line = String::new();
                    gap.clear();
                    open = false;
                    proof {
                        assert(all.subrange(start, seen + 1) =~= lead + line@ + gap@);
                    }
                } else if is_space_char(c) {
                    open = true;
                    if line.as_str().is_empty() {
                        proof {
                            assert(segment.push(c) =~= lead.push(c) + line@ + gap@);
                            lead = lead.push(c);
                        }
                    } else {
                        gap.push(c);
                        proof {
                            assert(segment.push(c) =~= lead + line@ + gap@);
                        }
                    }
                } else {
                    open = true;
                    let ghost body = line@ + gap@ + seq![c];
                    line.append(gap.as_str());
                    line.push(c);
                    gap.clear();
                    proof {
                        assert(line@ =~= body);
                        assert(segment.push(c) =~= lead + line@ + gap@);
                        assert(line@.last() == c);
                    }
                }
                proof {
                    seen = seen + 1;
                }
            },
            None => {
                proof {
                    assert(seen == all.len());
                    if open {
                        assert forall|i: int| 0 <= i < seen - start implies #[trigger] tail[i]
                            != '\n' by {
                            assert(tail[i] == all[start + i]);
                        }
                        lemma_first_line_end(tail, seen - start);
                        assert(tail =~= segment);
                        lemma_trimmed_middle(lead, line@, gap@);
                        assert(done + seq![segment] =~= done.push(segment));
                        done = done.push(segment);
                    } else {
                        assert(done + split_lines(tail) =~= done);
                    }
                }
                if open {
                    lines.push(line);
                }
                proof {
                    assert(split_lines(all) == done);
                    assert(views(lines@) =~= trimmed_lines_of(all));
                }
                return lines;
            },
        }
    }
}

} // verus!
