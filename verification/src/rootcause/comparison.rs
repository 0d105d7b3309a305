//! The text that shows a network before and after the events, side by
//! side.

use vstd::prelude::*;
use vstd::utf8::encode_utf8;
use crate::rootcause::network::Network;
use crate::strings::concat;
use crate::topology::{render_topology, Adjacency};

verus! {

/// `l` without a carriage return at its end.
pub open spec fn strip_cr(l: Seq<char>) -> Seq<char> {
    if l.len() > 0 && l.last() == '\r' {
        l.drop_last()
    } else {
        l
    }
}

/// The lines of `s` that end in a line feed, and what follows the last of
/// them.
pub open spec fn line_split(s: Seq<char>) -> (Seq<Seq<char>>, Seq<char>)
    decreases s.len(),
{
    if s.len() == 0 {
        (Seq::empty(), Seq::empty())
    } else {
        let (done, cur) = line_split(s.drop_last());
        if s.last() == '\n' {
            (done.push(strip_cr(cur)), Seq::empty())
        } else {
            (done, cur.push(s.last()))
        }
    }
}

/// The lines of `s`, as `str::lines` gives them: split at each line feed,
/// a carriage return before it dropped, no empty line after a final one.
pub open spec fn text_lines(s: Seq<char>) -> Seq<Seq<char>> {
    let (done, cur) = line_split(s);
    if cur.len() == 0 {
        done
    } else {
        done.push(cur)
    }
}

/// The length in bytes, encoded as UTF-8, of the longest of the lines.
pub open spec fn widest(lines: Seq<Seq<char>>) -> nat
    decreases lines.len(),
{
    if lines.len() == 0 {
        0
    } else {
        let w = widest(lines.drop_last());
        let l = encode_utf8(lines.last()).len();
        if l > w {
            l
        } else {
            w
        }
    }
}

/// `n` spaces.
pub open spec fn spaces(n: nat) -> Seq<char> {
    Seq::new(n, |i: int| ' ')
}

/// `l` padded with spaces on the right to `width` characters.
pub open spec fn pad(l: Seq<char>, width: nat) -> Seq<char> {
    if l.len() < width {
        l + spaces((width - l.len()) as nat)
    } else {
        l
    }
}

/// The `i`-th line, empty past the last one.
pub open spec fn line_at(lines: Seq<Seq<char>>, i: int) -> Seq<char> {
    if i < lines.len() {
        lines[i]
    } else {
        Seq::empty()
    }
}

/// One row: the left text padded to `width`, a bar, the right text.
pub open spec fn row(l: Seq<char>, r: Seq<char>, width: nat) -> Seq<char> {
    pad(l, width) + " | "@ + r + "\n"@
}

/// The two texts side by side: a heading row, then their lines row by
/// row, the left column as wide as its longest line counted in bytes, and
/// an empty line at the end.
pub open spec fn side_by_side(left: Seq<char>, right: Seq<char>) -> Seq<char> {
    let ls = text_lines(left);
    let rs = text_lines(right);
    let w = widest(ls);
    let n = if ls.len() > rs.len() {
        ls.len()
    } else {
        rs.len()
    };
    row("Initial Network State"@, "Modified Network State"@, w) + concat(
        Seq::new(n, |i: int| row(line_at(ls, i), line_at(rs, i), w)),
    ) + "\n"@
}

/// What shows the network before and after the events: nothing where
/// either has no node, and otherwise the two side by side.
pub open spec fn comparison_text(before: Adjacency, after: Adjacency) -> Seq<char> {
    if before == Map::<Seq<char>, Set<Seq<char>>>::empty() || after == Map::<
        Seq<char>,
        Set<Seq<char>>,
    >::empty() {
        Seq::empty()
    } else {
        side_by_side(render_topology(before), render_topology(after))
    }
}

/// The lines of `s`, as `str::lines` gives them.
fn split_lines(s: &str) -> (lines: Vec<String>)
    ensures
        lines@.map_values(|l: String| l@) == text_lines(s@),
{
    let n = s.unicode_len();
    let mut lines: Vec<String> = Vec::new();
    let mut start: usize = 0;
    let mut i: usize = 0;
    while i < n
        invariant
            n == s@.len(),
            start <= i <= n,
            line_split(s@.take(i as int)) == (
                lines@.map_values(|l: String| l@),
                s@.subrange(start as int, i as int),
            ),
        decreases n - i,
    {
        let c = s.get_char(i);
        let ghost before = lines@;
        proof {
            assert(s@.take(i + 1).drop_last() =~= s@.take(i as int));
            assert(s@.take(i + 1).last() == c);
        }
        if c == '\n' {
            let end = if i > start && s.get_char(i - 1) == '\r' {
                i - 1
            } else {
                i
            };
            let line = String::from_str(s.substring_char(start, end));
            lines.push(line);
            proof {
                let cur = s@.subrange(start as int, i as int);
                assert(line@ =~= strip_cr(cur));
                assert(lines@.map_values(|l: String| l@) =~= before.map_values(|l: String| l@).push(
                    line@,
                ));
                assert(s@.subrange((i + 1) as int, (i + 1) as int) =~= Seq::<char>::empty());
            }
            start = i + 1;
        } else {
            proof {
                assert(s@.subrange(start as int, i + 1) =~= s@.subrange(start as int, i as int).push(
                    c,
                ));
            }
        }
        i = i + 1;
    }
    proof {
        assert(s@.take(n as int) =~= s@);
    }
    if start < n {
        let ghost before = lines@;
        let line = String::from_str(s.substring_char(start, n));
        lines.push(line);
        proof {
            assert(lines@.map_values(|l: String| l@) =~= before.map_values(|l: String| l@).push(
                line@,
            ));
        }
    }
    lines
}

/// The length in bytes of the longest of `lines`.
fn widest_line(lines: &Vec<String>) -> (w: usize)
    ensures
        w == widest(lines@.map_values(|l: String| l@)),
{
    let mut w: usize = 0;
    let mut k: usize = 0;
    while k < lines.len()
        invariant
            k <= lines@.len(),
            w == widest(lines@.take(k as int).map_values(|l: String| l@)),
        decreases lines@.len() - k,
    {
        let l = lines[k].as_str().as_bytes().len();
        proof {
            let vs = lines@.take(k + 1).map_values(|l: String| l@);
            assert(vs.drop_last() =~= lines@.take(k as int).map_values(|l: String| l@));
            assert(vs.last() == lines@[k as int]@);
        }
        if l > w {
            w = l;
        }
        k = k + 1;
    }
    proof {
        assert(lines@.take(k as int) =~= lines@);
    }
    w
}

/// Appends `l` padded with spaces to `width` characters.
fn push_padded(out: &mut String, l: &str, width: usize)
    ensures
        final(out)@ == old(out)@ + pad(l@, width as nat),
{
    out.append(l);
    let len = l.unicode_len();
    let fill: usize = if len < width {
        width - len
    } else {
        0
    };
    let mut k: usize = 0;
    while k < fill
        invariant
            len == l@.len(),
            fill == (if len < width {
                width - len
            } else {
                0
            }),
            k <= fill,
            out@ == old(out)@ + l@ + spaces(k as nat),
        decreases fill - k,
    {
        out.append(" ");
        proof {
            assert(spaces((k + 1) as nat) =~= spaces(k as nat).push(' '));
            assert(" "@ =~= seq![' ']) by {
                reveal_strlit(" ");
            }
        }
        k = k + 1;
    }
    proof {
        assert(old(out)@ + l@ + spaces(k as nat) =~= old(out)@ + (l@ + spaces(k as nat)));
        if len >= width {
            assert(l@ + spaces(0) =~= l@);
        }
    }
}

/// Appends one row.
fn push_row(out: &mut String, l: &str, r: &str, width: usize)
    ensures
        final(out)@ == old(out)@ + row(l@, r@, width as nat),
{
    push_padded(out, l, width);
    out.append(" | ");
    out.append(r);
    out.append("\n");
    proof {
        assert(out@ =~= old(out)@ + row(l@, r@, width as nat));
    }
}

/// The text that shows `before` and `after` side by side: nothing where
/// either network has no node.
pub fn network_comparison(before: &Network, after: &Network) -> (s: String)
    requires
        before.wf(),
        after.wf(),
    ensures
        s@ == comparison_text(before@, after@),
{
    if before.graph.is_empty() || after.graph.is_empty() {
        return String::new();
    }
    let left_text = before.to_string();
    let right_text = after.to_string();
    let left = split_lines(left_text.as_str());
    let right = split_lines(right_text.as_str());
    let ghost ls = left@.map_values(|l: String| l@);
    let ghost rs = right@.map_values(|l: String| l@);
    let width = widest_line(&left);
    let n = if left.len() > right.len() {
        left.len()
    } else {
        right.len()
    };
    let ghost rows = Seq::new(n as nat, |i: int| row(line_at(ls, i), line_at(rs, i), width as nat));
    let mut out = String::new();
    push_row(&mut out, "Initial Network State", "Modified Network State", width);
    let ghost head = out@;
    let mut i: usize = 0;
    while i < n
        invariant
            i <= n,
            ls == left@.map_values(|l: String| l@),
            rs == right@.map_values(|l: String| l@),
            n == (if left@.len() > right@.len() {
                left@.len()
            } else {
                right@.len()
            }),
            rows == Seq::new(n as nat, |i: int| row(line_at(ls, i), line_at(rs, i), width as nat)),
            out@ == head + concat(rows.take(i as int)),
        decreases n - i,
    {
        let l: &str = if i < left.len() {
            left[i].as_str()
        } else {
            ""
        };
        let r: &str = if i < right.len() {
            right[i].as_str()
        } else {
            ""
        };
        proof {
            reveal_strlit("");
            assert(l@ == line_at(ls, i as int));
            assert(r@ == line_at(rs, i as int));
            assert(rows.take(i + 1).drop_last() =~= rows.take(i as int));
        }
        push_row(&mut out, l, r, width);
        i = i + 1;
    }
    out.append("\n");
    proof {
        assert(rows.take(i as int) =~= rows);
    }
    out
}

} // verus!
