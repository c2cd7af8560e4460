use vstd::prelude::*;
use crate::position::{Length, Position};
use vstd::string::StringSliceAdditionalSpecFns;

verus! {

/// The text of a document: a non-empty sequence of lines of UTF-8 bytes, without
/// their line breaks.
#[derive(Debug)]
pub struct Text {
    lines: Vec<Vec<u8>>,
}

pub open spec fn lines_view(lines: Seq<Vec<u8>>) -> Seq<Seq<u8>> {
    lines.map_values(|l: Vec<u8>| l@)
}

/// The length of a text: its number of line breaks and the bytes of its last line.
pub open spec fn text_length(t: Seq<Seq<u8>>) -> Length {
    Length { line_count: (t.len() - 1) as usize, byte_count: t.last().len() as usize }
}

/// `p` names a place in `t`.
pub open spec fn in_text(t: Seq<Seq<u8>>, p: Position) -> bool {
    p.line_index < t.len() && p.byte_index <= t[p.line_index as int].len()
}

/// The text before `p` and the text from `p` on.
pub open spec fn text_split(t: Seq<Seq<u8>>, p: Position) -> (Seq<Seq<u8>>, Seq<Seq<u8>>) {
    let l = p.line_index as int;
    let b = p.byte_index as int;
    (
        t.subrange(0, l).push(t[l].subrange(0, b)),
        seq![t[l].subrange(b, t[l].len() as int)] + t.subrange(l + 1, t.len() as int),
    )
}

/// `a` followed by `b`: the last line of `a` is joined with the first line of `b`.
pub open spec fn text_concat(a: Seq<Seq<u8>>, b: Seq<Seq<u8>>) -> Seq<Seq<u8>> {
    a.drop_last().push(a.last() + b[0]) + b.drop_first()
}

/// The lines of `bytes` cut at each line feed, among the first `k` bytes: the
/// finished lines and the line being read.
pub open spec fn split_lines_prefix(bytes: Seq<u8>, k: int) -> (Seq<Seq<u8>>, Seq<u8>)
    decreases k,
{
    if k <= 0 {
        (Seq::empty(), Seq::empty())
    } else {
        let (done, cur) = split_lines_prefix(bytes, k - 1);
        if bytes[k - 1] == 10 {
            (done.push(cur), Seq::empty())
        } else {
            (done, cur.push(bytes[k - 1]))
        }
    }
}

pub open spec fn split_lines(bytes: Seq<u8>) -> Seq<Seq<u8>> {
    let (done, cur) = split_lines_prefix(bytes, bytes.len() as int);
    done.push(cur)
}

pub proof fn lemma_lines_view_push(s: Seq<Vec<u8>>, x: Vec<u8>)
    ensures
        lines_view(s.push(x)) == lines_view(s).push(x@),
{
    assert(lines_view(s.push(x)) =~= lines_view(s).push(x@));
}

/// A copy of `s`.
pub fn copy_bytes(s: &[u8]) -> (r: Vec<u8>)
    ensures
        r@ == s@,
{
    let mut r: Vec<u8> = Vec::new();
    let mut i: usize = 0;
    while i < s.len()
        invariant
            i <= s.len(),
            r@ == s@.subrange(0, i as int),
        decreases s.len() - i,
    {
        r.push(s[i]);
        i += 1;
        proof {
            assert(r@ =~= s@.subrange(0, i as int));
        }
    }
    proof {
        assert(s@.subrange(0, s@.len() as int) =~= s@);
    }
    r
}

impl Text {
    pub closed spec fn spec_lines(&self) -> Seq<Seq<u8>> {
        lines_view(self.lines@)
    }

    pub proof fn lemma_line_count_bound(&self)
        ensures
            self.spec_lines().len() <= usize::MAX,
    {
        assert(self.lines.len() == self.lines@.len());
    }

    pub open spec fn wf(&self) -> bool {
        self.spec_lines().len() >= 1
    }

    /// A text of one empty line.
    pub fn new() -> (r: Text)
        ensures
            r.wf(),
            r.spec_lines() == seq![Seq::<u8>::empty()],
    {
        let mut lines: Vec<Vec<u8>> = Vec::new();
        lines.push(Vec::new());
        let r = Text { lines };
        proof {
            assert(r.spec_lines() =~= seq![Seq::<u8>::empty()]);
        }
        r
    }

    /// The text of `s`, cut into lines at each line feed.
    pub fn from_str(s: &str) -> (r: Text)
        ensures
            r.wf(),
            r.spec_lines() == split_lines(s.spec_bytes()),
    {
        let bytes = s.as_bytes();
        let mut lines: Vec<Vec<u8>> = Vec::new();
        let mut cur: Vec<u8> = Vec::new();
        let mut i: usize = 0;
        while i < bytes.len()
            invariant
                i <= bytes@.len(),
                (lines_view(lines@), cur@) == split_lines_prefix(bytes@, i as int),
            decreases bytes.len() - i,
        {
            if bytes[i] == 10 {
                lines.push(cur);
                cur = Vec::new();
            } else {
                cur.push(bytes[i]);
            }
            i += 1;
            proof {
                assert(lines_view(lines@) =~= split_lines_prefix(bytes@, i as int).0);
                assert(cur@ =~= split_lines_prefix(bytes@, i as int).1);
            }
        }
        lines.push(cur);
        let r = Text { lines };
        proof {
            assert(r.spec_lines() =~= split_lines(bytes@));
        }
        r
    }

    /// The text made of `lines`, which must not be empty.
    pub fn from_lines(lines: Vec<Vec<u8>>) -> (r: Text)
        requires
            lines@.len() >= 1,
        ensures
            r.wf(),
            r.spec_lines() == lines_view(lines@),
    {
        Text { lines }
    }

    pub fn as_lines(&self) -> (r: &Vec<Vec<u8>>)
        ensures
            lines_view(r@) == self.spec_lines(),
    {
        &self.lines
    }

    pub fn line_count(&self) -> (r: usize)
        ensures
            r == self.spec_lines().len(),
    {
        self.lines.len()
    }

    pub fn length(&self) -> (r: Length)
        requires
            self.wf(),
        ensures
            r == text_length(self.spec_lines()),
    {
        let n = self.lines.len();
        Length { line_count: n - 1, byte_count: self.lines[n - 1].len() }
    }

    /// The text before `p` and the text from `p` on.
    pub fn split_at_position(&self, p: Position) -> (r: (Text, Text))
        requires
            in_text(self.spec_lines(), p),
        ensures
            r.0.wf(),
            r.1.wf(),
            (r.0.spec_lines(), r.1.spec_lines()) == text_split(self.spec_lines(), p),
    {
        let l = p.line_index;
        let b = p.byte_index;
        let ghost t = self.spec_lines();
        assert(t.len() == self.lines@.len());
        let mut before: Vec<Vec<u8>> = Vec::new();
        let mut i: usize = 0;
        while i < l
            invariant
                l < self.lines@.len(),
                i <= l,
                t == self.spec_lines(),
                t.len() == self.lines@.len(),
                lines_view(before@) == t.subrange(0, i as int),
            decreases l - i,
        {
            let c = copy_bytes(self.lines[i].as_slice());
            proof {
                assert(t[i as int] == self.lines@[i as int]@);
            }
            proof {
                lemma_lines_view_push(before@, c);
            }
            before.push(c);
            i += 1;
            proof {
                assert(lines_view(before@) =~= t.subrange(0, i as int));
            }
        }
        let line = self.lines[l].as_slice();
        let (head, tail) = line.split_at(b);
        let h = copy_bytes(head);
        proof {
            lemma_lines_view_push(before@, h);
        }
        before.push(h);
        let mut after: Vec<Vec<u8>> = Vec::new();
        let tl = copy_bytes(tail);
        proof {
            lemma_lines_view_push(after@, tl);
        }
        after.push(tl);
        let n = self.lines.len();
        assert(after@.len() == 1);
        let mut j: usize = l + 1;
        while j < n
            invariant
                n == self.lines@.len(),
                l < j <= self.lines@.len(),
                t == self.spec_lines(),
                t.len() == self.lines@.len(),
                lines_view(after@) == seq![t[l as int].subrange(b as int, t[l as int].len() as int)]
                    + t.subrange(l + 1, j as int),
            decreases n - j,
        {
            let c = copy_bytes(self.lines[j].as_slice());
            proof {
                assert(t[j as int] == self.lines@[j as int]@);
            }
            proof {
                lemma_lines_view_push(after@, c);
            }
            after.push(c);
            j += 1;
            proof {
                assert(lines_view(after@) =~= seq![t[l as int].subrange(b as int, t[l as int].len() as int)]
                    + t.subrange(l + 1, j as int));
            }
        }
        let r = (Text { lines: before }, Text { lines: after });
        proof {
            assert(r.0.spec_lines() =~= text_split(t, p).0);
            assert(r.1.spec_lines() =~= text_split(t, p).1);
        }
        r
    }

    /// Appends `other`: the last line of this text is joined with the first of `other`.
    pub fn append(&mut self, other: Text)
        requires
            old(self).wf(),
            other.wf(),
        ensures
            final(self).wf(),
            final(self).spec_lines() == text_concat(old(self).spec_lines(), other.spec_lines()),
    {
        let ghost a = self.spec_lines();
        let ghost bt = other.spec_lines();
        let mut other_lines = other.lines;
        let mut last = self.lines.pop().unwrap();
        let mut first = other_lines.remove(0);
        last.append(&mut first);
        proof {
            lemma_lines_view_push(self.lines@, last);
        }
        self.lines.push(last);
        let mut k: usize = 0;
        let n = other_lines.len();
        let ghost base = self.lines@;
        proof {
            assert(lines_view(self.lines@) =~= a.drop_last().push(a.last() + bt[0]));
        }
        while k < n
            invariant
                n == other_lines@.len(),
                k <= n,
                lines_view(other_lines@) == bt.drop_first(),
                bt.len() >= 1,
                lines_view(self.lines@) == a.drop_last().push(a.last() + bt[0]) + bt.drop_first().subrange(0, k as int),
            decreases n - k,
        {
            let c = copy_bytes(other_lines[k].as_slice());
            proof {
                assert(bt.drop_first()[k as int] == other_lines@[k as int]@);
            }
            proof {
                lemma_lines_view_push(self.lines@, c);
            }
            self.lines.push(c);
            k += 1;
            proof {
                assert(lines_view(self.lines@) =~= a.drop_last().push(a.last() + bt[0]) + bt.drop_first().subrange(0, k as int));
            }
        }
        proof {
            assert(bt.drop_first().subrange(0, n as int) =~= bt.drop_first());
        }
    }
    /// A copy of this text.
    pub fn copy(&self) -> (r: Text)
        requires
            self.wf(),
        ensures
            r.wf(),
            r.spec_lines() == self.spec_lines(),
    {
        let (mut a, b) = self.split_at_position(Position { line_index: 0, byte_index: 0 });
        let ghost t = self.spec_lines();
        a.append(b);
        proof {
            assert(t[0].subrange(0, 0) =~= Seq::<u8>::empty());
            assert(t[0].subrange(0, t[0].len() as int) =~= t[0]);
            assert(a.spec_lines() =~= t);
        }
        a
    }

}

} // verus!
