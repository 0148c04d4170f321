use vstd::prelude::*;

use crate::text::{join_lines, joined, views};

verus! {

/// Where a line of a diff comes from.
#[derive(Debug, Clone, Copy, PartialEq, Eq, Structural)]
pub enum Side {
    /// Only in the old text.
    Left,
    /// In both texts.
    Both,
    /// Only in the new text.
    Right,
}

/// The line diff of two texts as `diff::lines` computes it: each line with its side.
pub uninterp spec fn line_diff(old_text: Seq<char>, new_text: Seq<char>) -> Seq<(Side, Seq<char>)>;

/// The side and text of each diff line.
pub open spec fn diff_view(v: Seq<(Side, String)>) -> Seq<(Side, Seq<char>)> {
    v.map_values(|p: (Side, String)| (p.0, p.1@))
}

/// Relies on `diff::lines`: the line diff of `a` and `b` (for `Both`, the line of `a`).
/// The result depends on the two texts alone.
#[verifier::external_body]
fn lines_diff(a: &str, b: &str) -> (r: Vec<(Side, String)>)
    ensures
        diff_view(r@) == line_diff(a@, b@),
{
    diff::lines(a, b).into_iter().map(|d| match d {
        diff::Result::Left(l) => (Side::Left, l.to_string()),
        diff::Result::Both(l, _) => (Side::Both, l.to_string()),
        diff::Result::Right(r) => (Side::Right, r.to_string()),
    }).collect()
}

/// The marker in front of a diff line: `-` for the old text, a space for both, `+` for the new.
pub open spec fn marker(s: Side) -> char {
    match s {
        Side::Left => '-',
        Side::Both => ' ',
        Side::Right => '+',
    }
}

/// Each diff line behind its marker, one per line.
pub open spec fn rendered(d: Seq<(Side, Seq<char>)>) -> Seq<char> {
    joined(d.map_values(|p: (Side, Seq<char>)| seq![marker(p.0)] + p.1))
}

/// Renders a line diff: each line behind its marker, one per line.
pub fn render_diff(d: &Vec<(Side, String)>) -> (r: String)
    ensures
        r@ == rendered(diff_view(d@)),
{
    let mut parts: Vec<String> = Vec::new();
    let mut k: usize = 0;
    while k < d.len()
        invariant
            k <= d@.len(),
            views(parts@) == diff_view(d@).subrange(0, k as int).map_values(|p: (Side, Seq<char>)| seq![marker(p.0)] + p.1),
        decreases d@.len() - k,
    {
        proof {
            reveal_strlit("-");
            reveal_strlit(" ");
            reveal_strlit("+");
        }
        let m = match d[k].0 {
            Side::Left => "-",
            Side::Both => " ",
            Side::Right => "+",
        };
        proof {
            assert(m@ =~= seq![marker(d@[k as int].0)]);
        }
        let line = String::from_str(m).concat(d[k].1.as_str());
        let ghost before = views(parts@);
        parts.push(line);
        proof {
            assert(views(parts@) =~= before.push(seq![marker(d@[k as int].0)] + d@[k as int].1@));
            assert(diff_view(d@).subrange(0, k + 1).map_values(|p: (Side, Seq<char>)| seq![marker(p.0)] + p.1) =~=
                diff_view(d@).subrange(0, k as int).map_values(|p: (Side, Seq<char>)| seq![marker(p.0)] + p.1).push(
                    seq![marker(d@[k as int].0)] + d@[k as int].1@));
        }
        k = k + 1;
    }
    proof {
        assert(diff_view(d@).subrange(0, d@.len() as int) =~= diff_view(d@));
    }
    join_lines(&parts)
}

/// The line diff of `s1` and `s2`, rendered with markers.
pub fn difference(s1: &str, s2: &str) -> (r: String)
    ensures
        r@ == rendered(line_diff(s1@, s2@)),
{
    let d = lines_diff(s1, s2);
    render_diff(&d)
}

} // verus!
