use vstd::prelude::*;

use crate::strset::text_eq;

verus! {

/// A byte range of the C source.
#[derive(Debug, Clone, Copy, PartialEq, Eq, Structural)]
pub struct Span {
    pub start: usize,
    pub end: usize,
}

/// One substitution for the renderer: the text at `span` becomes `text`.
#[derive(Debug, Clone)]
pub struct Replacement {
    pub span: Span,
    pub text: String,
}

/// The target language's standard option type.
pub open spec fn option_type() -> Seq<char> {
    "Option"@
}

/// The program's entry point.
pub open spec fn entry_point() -> Seq<char> {
    "main"@
}

/// The name a type gets from the model's proposal: the standard option type is prefixed
/// with `My`, any other name is kept.
pub open spec fn nominal_name_of(p: Seq<char>) -> Seq<char> {
    if p == option_type() {
        "My"@ + p
    } else {
        p
    }
}

/// The name a function gets from the model's proposal: the entry point is prefixed with
/// `my_`, any other name is kept.
pub open spec fn function_name_of(p: Seq<char>) -> Seq<char> {
    if p == entry_point() {
        "my_"@ + p
    } else {
        p
    }
}

/// Settles a proposed type name.
pub fn nominal_name(proposed: String) -> (r: String)
    ensures
        r@ == nominal_name_of(proposed@),
{
    if text_eq(proposed.as_str(), "Option") {
        String::from_str("My").concat(proposed.as_str())
    } else {
        proposed
    }
}

/// Settles a proposed function name.
pub fn function_name(proposed: String) -> (r: String)
    ensures
        r@ == function_name_of(proposed@),
{
    if text_eq(proposed.as_str(), "main") {
        String::from_str("my_").concat(proposed.as_str())
    } else {
        proposed
    }
}

/// The name that each use of the keyword-shaped C identifier `in` is given.
pub open spec fn in_renamed() -> Seq<char> {
    "in_data"@
}

/// Appends a substitution of `in_data` for every span of `in_spans`.
pub fn rename_in(subs: &mut Vec<Replacement>, in_spans: &Vec<Span>)
    ensures
        final(subs)@.len() == old(subs)@.len() + in_spans@.len(),
        forall|k: int| 0 <= k < old(subs)@.len() ==> #[trigger] final(subs)@[k] == old(subs)@[k],
        forall|k: int| 0 <= k < in_spans@.len() ==> {
            let x = #[trigger] final(subs)@[old(subs)@.len() + k];
            x.span == in_spans@[k] && x.text@ == in_renamed()
        },
{
    let ghost n0 = subs@.len();
    let ghost s0 = subs@;
    let mut k: usize = 0;
    while k < in_spans.len()
        invariant
            k <= in_spans@.len(),
            subs@.len() == n0 + k,
            n0 == s0.len(),
            forall|j: int| 0 <= j < n0 ==> #[trigger] subs@[j] == s0[j],
            forall|j: int| 0 <= j < k ==> {
                let x = #[trigger] subs@[n0 + j];
                x.span == in_spans@[j] && x.text@ == in_renamed()
            },
        decreases in_spans@.len() - k,
    {
        proof {
            reveal_strlit("in_data");
        }
        subs.push(Replacement { span: in_spans[k], text: String::from_str("in_data") });
        proof {
            assert(subs@[n0 + k].text@ == in_renamed());
        }
        k = k + 1;
    }
}

/// The index of the first substitution of `subs` that starts at `i`, or -1.
pub open spec fn first_at(subs: Seq<Replacement>, i: int) -> int
    decreases subs.len(),
{
    if subs.len() == 0 {
        -1
    } else if first_at(subs.drop_last(), i) >= 0 {
        first_at(subs.drop_last(), i)
    } else if subs.last().span.start == i {
        subs.len() - 1
    } else {
        -1
    }
}

/// Whether every substitution covers a non-empty range of a text of length `n`, and no
/// two of them overlap.
pub open spec fn valid_subs(subs: Seq<Replacement>, n: int) -> bool {
    &&& forall|k: int| 0 <= k < subs.len() ==> (#[trigger] subs[k]).span.start < subs[k].span.end <= n
    &&& forall|a: int, b: int| 0 <= a < subs.len() && 0 <= b < subs.len() && a != b ==>
        (#[trigger] subs[a]).span.end <= (#[trigger] subs[b]).span.start || subs[b].span.end <= subs[a].span.start
}

/// The text of `src` from position `i` on, with every substitution that starts at a
/// position reached put in place of its range.
pub open spec fn substituted_from(src: Seq<char>, subs: Seq<Replacement>, i: int) -> Seq<char>
    decreases src.len() - i,
{
    if i < 0 || i >= src.len() {
        Seq::empty()
    } else {
        let k = first_at(subs, i);
        if 0 <= k < subs.len() && i < subs[k].span.end <= src.len() {
            subs[k].text@ + substituted_from(src, subs, subs[k].span.end as int)
        } else {
            seq![src[i]] + substituted_from(src, subs, i + 1)
        }
    }
}

fn find_at(subs: &Vec<Replacement>, i: usize) -> (r: Option<usize>)
    ensures
        r matches Some(k) ==> first_at(subs@, i as int) == k as int && k < subs@.len()
            && subs@[k as int].span.start == i,
        r is None ==> first_at(subs@, i as int) == -1,
{
    let mut k: usize = 0;
    while k < subs.len()
        invariant
            k <= subs@.len(),
            first_at(subs@.subrange(0, k as int), i as int) == -1,
        decreases subs@.len() - k,
    {
        proof {
            assert(subs@.subrange(0, k + 1).drop_last() =~= subs@.subrange(0, k as int));
        }
        if subs[k].span.start == i {
            proof {
                lemma_first_at_prefix(subs@, k as int + 1, i as int);
            }
            return Some(k);
        }
        k = k + 1;
    }
    proof {
        assert(subs@.subrange(0, subs@.len() as int) =~= subs@);
    }
    None
}

/// A hit in a prefix of `subs` is the hit in all of `subs`.
proof fn lemma_first_at_prefix(subs: Seq<Replacement>, m: int, i: int)
    requires
        0 <= m <= subs.len(),
        first_at(subs.subrange(0, m), i) >= 0,
    ensures
        first_at(subs, i) == first_at(subs.subrange(0, m), i),
    decreases subs.len() - m,
{
    if m < subs.len() {
        assert(subs.subrange(0, m + 1).drop_last() =~= subs.subrange(0, m));
        lemma_first_at_prefix(subs, m + 1, i);
    } else {
        assert(subs.subrange(0, m) =~= subs);
    }
}

/// Renders `src` with the substitutions `subs`, whose spans are character positions in
/// `src`. `None` where a span is empty, runs past the end, or overlaps another.
pub fn render_with(src: &str, subs: &Vec<Replacement>) -> (r: Option<String>)
    ensures
        r is Some <==> valid_subs(subs@, src@.len() as int),
        r matches Some(t) ==> t@ == substituted_from(src@, subs@, 0),
{
    let n = src.unicode_len();
    let mut a: usize = 0;
    while a < subs.len()
        invariant
            n == src@.len(),
            a <= subs@.len(),
            forall|k: int| 0 <= k < a ==> (#[trigger] subs@[k]).span.start < subs@[k].span.end <= n,
            forall|x: int, y: int| 0 <= x < a && 0 <= y < subs@.len() && x != y ==>
                (#[trigger] subs@[x]).span.end <= (#[trigger] subs@[y]).span.start || subs@[y].span.end <= subs@[x].span.start,
        decreases subs@.len() - a,
    {
        let sa = subs[a].span;
        if !(sa.start < sa.end && sa.end <= n) {
            return None;
        }
        let mut b: usize = 0;
        while b < subs.len()
            invariant
                a < subs@.len(),
                sa == subs@[a as int].span,
                b <= subs@.len(),
                forall|y: int| 0 <= y < b && a != y ==>
                    sa.end <= (#[trigger] subs@[y]).span.start || subs@[y].span.end <= sa.start,
            decreases subs@.len() - b,
        {
            let sb = subs[b].span;
            if a != b && !(sa.end <= sb.start || sb.end <= sa.start) {
                proof {
                    assert(!valid_subs(subs@, n as int)) by {
                        assert(subs@[a as int].span == sa);
                        assert(subs@[b as int].span == sb);
                    }
                }
                return None;
            }
            b = b + 1;
        }
        proof {
            assert forall|x: int, y: int| 0 <= x < a + 1 && 0 <= y < subs@.len() && x != y implies
                (#[trigger] subs@[x]).span.end <= (#[trigger] subs@[y]).span.start || subs@[y].span.end <= subs@[x].span.start by {
                if x == a {
                    assert(sa.end <= subs@[y].span.start || subs@[y].span.end <= sa.start);
                }
            }
        }
        a = a + 1;
    }
    let mut out = String::new();
    let mut i: usize = 0;
    while i < n
        invariant
            n == src@.len(),
            i <= n,
            valid_subs(subs@, n as int),
            out@ + substituted_from(src@, subs@, i as int) == substituted_from(src@, subs@, 0),
        decreases n - i,
    {
        match find_at(subs, i) {
            Some(k) => {
                out.append(subs[k].text.as_str());
                proof {
                    assert(subs@[k as int].span.end > i);
                }
                i = subs[k].span.end;
            },
            None => {
                let c = src.substring_char(i, i + 1);
                proof {
                    assert(c@ =~= seq![src@[i as int]]);
                }
                out.append(c);
                i = i + 1;
            },
        }
    }
    Some(out)
}

} // verus!
