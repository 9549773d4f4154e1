use vstd::prelude::*;

verus! {

use vstd::string::StrSliceExecFns;

/// Holds when `needle` stands in `hay` beginning at position `i`.
pub open spec fn contains_at(hay: Seq<char>, needle: Seq<char>, i: int) -> bool {
    &&& 0 <= i
    &&& i + needle.len() <= hay.len()
    &&& hay.subrange(i, i + needle.len()) == needle
}

/// Holds when `needle` stands somewhere in `hay`.
pub open spec fn has_substring(hay: Seq<char>, needle: Seq<char>) -> bool {
    exists|i: int| contains_at(hay, needle, i)
}

/// The empty sequence stands in every sequence, at its start.
pub proof fn lemma_empty_needle(hay: Seq<char>, needle: Seq<char>)
    requires
        needle.len() == 0,
    ensures
        has_substring(hay, needle),
{
    assert(hay.subrange(0, 0) =~= needle);
    assert(contains_at(hay, needle, 0));
}

/// The lines of `s`: the maximal runs of characters without a newline,
/// in order. A newline only closes the line before it, so a trailing
/// newline opens no further empty line, and the empty document has no
/// lines at all.
pub open spec fn line_seqs(s: Seq<char>) -> Seq<Seq<char>>
    decreases s.len(),
{
    if s.len() == 0 {
        Seq::empty()
    } else if s[0] == '\n' {
        seq![Seq::<char>::empty()] + line_seqs(s.drop_first())
    } else {
        let rest = line_seqs(s.drop_first());
        if rest.len() == 0 {
            seq![seq![s[0]]]
        } else {
            seq![seq![s[0]] + rest[0]] + rest.drop_first()
        }
    }
}

/// A document with at least one character has at least one line.
pub proof fn lemma_line_seqs_len(s: Seq<char>)
    requires
        s.len() > 0,
    ensures
        line_seqs(s).len() >= 1,
{
}

/// A run of characters without a newline is one line.
pub proof fn lemma_line_seqs_unterminated(line: Seq<char>)
    requires
        line.len() > 0,
        forall|k: int| 0 <= k < line.len() ==> line[k] != '\n',
    ensures
        line_seqs(line) == seq![line],
    decreases line.len(),
{
    assert(line[0] != '\n');
    let rest = line.drop_first();
    if rest.len() == 0 {
        assert(line_seqs(rest) =~= Seq::<Seq<char>>::empty());
        assert(seq![line[0]] =~= line);
        assert(line_seqs(line) =~= seq![line]);
    } else {
        assert forall|k: int| 0 <= k < rest.len() implies rest[k] != '\n' by {
            assert(rest[k] == line[k + 1]);
        }
        lemma_line_seqs_unterminated(rest);
        assert(seq![line[0]] + rest =~= line);
        assert(line_seqs(line) =~= seq![line]);
    }
}

/// A run of characters without a newline, closed by one newline, is
/// one line as well.
pub proof fn lemma_line_seqs_terminated(line: Seq<char>)
    requires
        forall|k: int| 0 <= k < line.len() ==> line[k] != '\n',
    ensures
        line_seqs(line.push('\n')) == seq![line],
    decreases line.len(),
{
    let s = line.push('\n');
    if line.len() == 0 {
        assert(s[0] == '\n');
        assert(s.drop_first() =~= Seq::<char>::empty());
        assert(line_seqs(s.drop_first()) =~= Seq::<Seq<char>>::empty());
        assert(line =~= Seq::<char>::empty());
        assert(line_seqs(s) =~= seq![line]);
    } else {
        assert(s[0] == line[0]);
        assert(line[0] != '\n');
        let rest = line.drop_first();
        assert forall|k: int| 0 <= k < rest.len() implies rest[k] != '\n' by {
            assert(rest[k] == line[k + 1]);
        }
        lemma_line_seqs_terminated(rest);
        assert(s.drop_first() =~= rest.push('\n'));
        assert(seq![line[0]] + rest =~= line);
        assert(line_seqs(s) =~= seq![line]);
    }
}

/// Splitting into lines passes any boundary that stands just after a
/// newline: the lines of the whole are the lines of the part before it
/// followed by the lines of the part after it.
pub proof fn lemma_line_seqs_append(t: Seq<char>, u: Seq<char>)
    requires
        t.len() == 0 || t.last() == '\n',
    ensures
        line_seqs(t + u) == line_seqs(t) + line_seqs(u),
    decreases t.len(),
{
    if t.len() == 0 {
        assert(t + u =~= u);
        assert(line_seqs(t) + line_seqs(u) =~= line_seqs(u));
    } else {
        let t1 = t.drop_first();
        if t1.len() > 0 {
            assert(t1.last() == t.last());
        }
        lemma_line_seqs_append(t1, u);
        assert((t + u).drop_first() =~= t1 + u);
        if t[0] == '\n' {
            assert((t + u)[0] == '\n');
            assert(line_seqs(t + u) =~= line_seqs(t) + line_seqs(u));
        } else {
            assert(t.len() >= 2);
            lemma_line_seqs_len(t1);
            let rt = line_seqs(t1);
            let ru = line_seqs(t1 + u);
            assert(ru == rt + line_seqs(u));
            assert(ru[0] == rt[0]);
            assert(ru.drop_first() =~= rt.drop_first() + line_seqs(u));
            assert((t + u)[0] == t[0]);
            assert(line_seqs(t + u) =~= line_seqs(t) + line_seqs(u));
        }
    }
}

/// Whether `needle` stands in `hay` beginning at character position `at`.
fn matches_from(hay: &str, needle: &str, at: usize) -> (r: bool)
    requires
        hay@.len() <= usize::MAX,
        at + needle@.len() <= hay@.len(),
    ensures
        r == contains_at(hay@, needle@, at as int),
{
    let nn = needle.unicode_len();
    let mut j: usize = 0;
    while j < nn
        invariant
            nn == needle@.len(),
            hay@.len() <= usize::MAX,
            at + nn <= hay@.len(),
            j <= nn,
            forall|k: int| 0 <= k < j ==> hay@[at + k] == needle@[k],
        decreases nn - j,
    {
        if hay.get_char(at + j) != needle.get_char(j) {
            proof {
                if contains_at(hay@, needle@, at as int) {
                    assert(hay@.subrange(at as int, at + nn)[j as int] == needle@[j as int]);
                }
            }
            return false;
        }
        j += 1;
    }
    proof {
        assert(hay@.subrange(at as int, at + nn) =~= needle@);
    }
    true
}

/// Whether `needle` stands anywhere in `hay`.
pub fn contains_substr(hay: &str, needle: &str) -> (r: bool)
    ensures
        r == has_substring(hay@, needle@),
{
    let hn = hay.unicode_len();
    let nn = needle.unicode_len();
    if nn > hn {
        proof {
            assert(forall|i: int| !contains_at(hay@, needle@, i));
        }
        return false;
    }
    let bound = hn - nn;
    let mut i: usize = 0;
    while i <= bound
        invariant
            hn == hay@.len(),
            nn == needle@.len(),
            nn <= hn,
            bound == hn - nn,
            i <= bound + 1,
            forall|k: int| 0 <= k < i ==> !contains_at(hay@, needle@, k),
        decreases bound + 1 - i,
    {
        if matches_from(hay, needle, i) {
            assert(contains_at(hay@, needle@, i as int));
            return true;
        }
        proof {
            if nn == 0 {
                assert(hay@.subrange(i as int, i as int) =~= needle@);
                assert(contains_at(hay@, needle@, i as int));
            }
        }
        i += 1;
    }
    proof {
        assert forall|k: int| !contains_at(hay@, needle@, k) by {
            if 0 <= k < i as int {
            } else {
                assert(!(0 <= k && k + nn <= hn));
            }
        }
    }
    false
}

/// The lines of `contents`, in order, as slices of it.
pub fn split_lines<'a>(contents: &'a str) -> (r: Vec<&'a str>)
    ensures
        r.deep_view() == line_seqs(contents@),
{
    let n = contents.unicode_len();
    let mut lines: Vec<&'a str> = Vec::new();
    let mut start: usize = 0;
    let mut i: usize = 0;
    proof {
        assert(contents@.take(0) =~= Seq::<char>::empty());
        assert(lines.deep_view() =~= line_seqs(contents@.take(0)));
    }
    while i < n
        invariant
            n == contents@.len(),
            start <= i <= n,
            start == 0 || contents@[start - 1] == '\n',
            forall|k: int| start <= k < i ==> contents@[k] != '\n',
            lines.deep_view() == line_seqs(contents@.take(start as int)),
        decreases n - i,
    {
        let c = contents.get_char(i);
        if c == '\n' {
            let line = contents.substring_char(start, i);
            proof {
                let pre = contents@.take(start as int);
                let ln = contents@.subrange(start as int, i as int);
                assert forall|k: int| 0 <= k < ln.len() implies ln[k] != '\n' by {
                    assert(ln[k] == contents@[start + k]);
                }
                if start > 0 {
                    assert(pre.last() == contents@[start - 1]);
                }
                lemma_line_seqs_terminated(ln);
                lemma_line_seqs_append(pre, ln.push('\n'));
                assert(pre + ln.push('\n') =~= contents@.take(i + 1));
            }
            lines.push(line);
            proof {
                assert(lines.deep_view() =~= line_seqs(contents@.take(i + 1)));
            }
            start = i + 1;
        }
        i += 1;
    }
    if start < n {
        let line = contents.substring_char(start, n);
        proof {
            let pre = contents@.take(start as int);
            let ln = contents@.subrange(start as int, n as int);
            assert forall|k: int| 0 <= k < ln.len() implies ln[k] != '\n' by {
                assert(ln[k] == contents@[start + k]);
            }
            if start > 0 {
                assert(pre.last() == contents@[start - 1]);
            }
            lemma_line_seqs_unterminated(ln);
            lemma_line_seqs_append(pre, ln);
            assert(pre + ln =~= contents@);
        }
        lines.push(line);
        proof {
            assert(lines.deep_view() =~= line_seqs(contents@));
        }
    } else {
        proof {
            assert(contents@.take(start as int) =~= contents@);
        }
    }
    lines
}

} // verus!
