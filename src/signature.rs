use vstd::prelude::*;

use crate::item::FnInfo;
use crate::result::TranslationResult;
use crate::strset::text_eq;

verus! {

/// The number of positions of `s` that hold `c`.
pub open spec fn count_char(s: Seq<char>, c: char) -> nat
    decreases s.len(),
{
    if s.len() == 0 {
        0
    } else {
        count_char(s.drop_last(), c) + if s.last() == c { 1nat } else { 0nat }
    }
}

/// The number of arrows `->` in `s`.
pub open spec fn count_arrows(s: Seq<char>) -> nat
    decreases s.len(),
{
    if s.len() < 2 {
        0
    } else {
        count_arrows(s.drop_last()) + if s[s.len() - 2] == '-' && s.last() == '>' { 1nat } else { 0nat }
    }
}

/// Whether the angle brackets of a signature balance, arrows aside: as many `<` as `>`
/// once every `->` is taken out.
pub open spec fn angles_balanced(s: Seq<char>) -> bool {
    count_char(s, '<') + count_arrows(s) == count_char(s, '>')
}

/// Tests `angles_balanced`.
pub fn balanced_angles(sig: &str) -> (r: bool)
    ensures
        r == angles_balanced(sig@),
{
    let n = sig.unicode_len();
    let mut lt: usize = 0;
    let mut gt: usize = 0;
    let mut arrows: usize = 0;
    let mut i: usize = 0;
    while i < n
        invariant
            n == sig@.len(),
            i <= n,
            lt == count_char(sig@.subrange(0, i as int), '<'),
            gt == count_char(sig@.subrange(0, i as int), '>'),
            arrows == count_arrows(sig@.subrange(0, i as int)),
            lt <= i,
            gt <= i,
            arrows <= gt,
        decreases n - i,
    {
        let c = sig.get_char(i);
        proof {
            let p = sig@.subrange(0, i + 1);
            assert(p.drop_last() =~= sig@.subrange(0, i as int));
            if i >= 1 {
                assert(p[p.len() - 2] == sig@[i - 1]);
            }
        }
        if c == '<' {
            lt = lt + 1;
        }
        if c == '>' {
            gt = gt + 1;
            if i >= 1 && sig.get_char(i - 1) == '-' {
                arrows = arrows + 1;
            }
        }
        i = i + 1;
    }
    proof {
        assert(sig@.subrange(0, n as int) =~= sig@);
    }
    lt == gt - arrows
}

/// `sigs` with only the first signature of each shape.
pub open spec fn one_per_shape(sigs: Seq<FnInfo>) -> Seq<FnInfo>
    decreases sigs.len(),
{
    if sigs.len() == 0 {
        Seq::empty()
    } else if exists|j: int| 0 <= j < sigs.len() - 1 && sigs[j].shape@ == sigs.last().shape@ {
        one_per_shape(sigs.drop_last())
    } else {
        one_per_shape(sigs.drop_last()).push(sigs.last())
    }
}

/// Whether one of the first `n` signatures of `sigs` has the shape `s`.
pub open spec fn has_shape(sigs: Seq<FnInfo>, n: int, s: Seq<char>) -> bool {
    exists|j: int| 0 <= j < n && sigs[j].shape@ == s
}

/// The signatures with at most `n` parameters where there is one, else all of them.
pub open spec fn prefer_arity(sigs: Seq<FnInfo>, n: usize) -> Seq<FnInfo> {
    if exists|k: int| 0 <= k < sigs.len() && sigs[k].params <= n {
        sigs.filter(|f: FnInfo| f.params <= n)
    } else {
        sigs
    }
}

/// Keeps one signature per distinct shape (the first), then, where some signature has no
/// more parameters than the C function's `params`, drops those that have more.
pub fn select_signatures(sigs: Vec<FnInfo>, params: usize) -> (r: Vec<FnInfo>)
    ensures
        r@ == prefer_arity(one_per_shape(sigs@), params),
{
    let ghost all = sigs@;
    let mut out: Vec<FnInfo> = Vec::new();
    let mut rest = sigs;
    let mut k: usize = 0;
    let total = rest.len();
    while rest.len() > 0
        invariant
            k + rest@.len() == all.len(),
            all.len() == total,
            rest@ == all.subrange(k as int, all.len() as int),
            out@ == one_per_shape(all.subrange(0, k as int)),
            forall|s: Seq<char>| #[trigger] has_shape(all, k as int, s) <==> has_shape(out@, out@.len() as int, s),
        decreases rest@.len(),
    {
        let it = rest.remove(0);
        proof {
            assert(rest@ =~= all.subrange(k + 1, all.len() as int));
            assert(it == all[k as int]);
            assert(all.subrange(0, k + 1).drop_last() =~= all.subrange(0, k as int));
        }
        let mut seen = false;
        let mut j: usize = 0;
        while j < out.len()
            invariant
                j <= out@.len(),
                seen == exists|q: int| 0 <= q < j && out@[q].shape@ == it.shape@,
            decreases out@.len() - j,
        {
            if text_eq(out[j].shape.as_str(), it.shape.as_str()) {
                seen = true;
            }
            j = j + 1;
        }
        proof {
            let p = all.subrange(0, k + 1);
            assert(seen == exists|q: int| 0 <= q < p.len() - 1 && p[q].shape@ == p.last().shape@) by {
                if seen {
                    assert(has_shape(out@, out@.len() as int, it.shape@));
                    assert(has_shape(all, k as int, it.shape@));
                    let w = choose|w: int| 0 <= w < k && all[w].shape@ == it.shape@;
                    assert(p[w].shape@ == p.last().shape@);
                }
                if exists|q: int| 0 <= q < p.len() - 1 && p[q].shape@ == p.last().shape@ {
                    let q = choose|q: int| 0 <= q < p.len() - 1 && p[q].shape@ == p.last().shape@;
                    assert(all[q].shape@ == it.shape@);
                    assert(has_shape(all, k as int, it.shape@));
                    assert(has_shape(out@, out@.len() as int, it.shape@));
                }
            }
        }
        let ghost o = out@;
        if !seen {
            out.push(it);
        }
        proof {
            assert forall|s: Seq<char>| #[trigger] has_shape(all, k + 1, s) <==> has_shape(out@, out@.len() as int, s) by {
                if has_shape(all, k + 1, s) {
                    let j = choose|j: int| 0 <= j < k + 1 && all[j].shape@ == s;
                    if j < k {
                        assert(has_shape(all, k as int, s));
                        let q = choose|q: int| 0 <= q < o.len() && o[q].shape@ == s;
                        assert(out@[q].shape@ == s);
                    } else if !seen {
                        assert(out@[out@.len() - 1].shape@ == s);
                    } else {
                        let q = choose|q: int| 0 <= q < o.len() && o[q].shape@ == it.shape@;
                        assert(out@[q].shape@ == s);
                    }
                }
                if has_shape(out@, out@.len() as int, s) {
                    let j = choose|j: int| 0 <= j < out@.len() && out@[j].shape@ == s;
                    if j < o.len() {
                        assert(has_shape(o, o.len() as int, s));
                        assert(has_shape(all, k as int, s));
                        let w = choose|w: int| 0 <= w < k && all[w].shape@ == s;
                        assert(all[w].shape@ == s);
                    } else {
                        assert(all[k as int].shape@ == s);
                    }
                }
            }
        }
        k = k + 1;
    }
    proof {
        assert(all.subrange(0, k as int) =~= all);
    }
    let ghost deduped = out@;
    let mut any = false;
    let mut i: usize = 0;
    while i < out.len()
        invariant
            i <= out@.len(),
            any == exists|q: int| 0 <= q < i && out@[q].params <= params,
        decreases out@.len() - i,
    {
        if out[i].params <= params {
            any = true;
        }
        i = i + 1;
    }
    if !any {
        return out;
    }
    let mut kept: Vec<FnInfo> = Vec::new();
    let mut rest = out;
    let ghost m: int = 0;
    while rest.len() > 0
        invariant
            kept@ + rest@.filter(|f: FnInfo| f.params <= params) == deduped.filter(|f: FnInfo| f.params <= params),
        decreases rest@.len(),
    {
        let ghost before = rest@;
        let it = rest.remove(0);
        proof {
            assert(rest@ =~= before.drop_first());
            assert(before =~= seq![it] + rest@);
            Seq::filter_distributes_over_add(seq![it], rest@, |f: FnInfo| f.params <= params);
            reveal_with_fuel(Seq::filter, 2);
        }
        if it.params <= params {
            let ghost kk = kept@;
            kept.push(it);
            proof {
                assert(seq![it].filter(|f: FnInfo| f.params <= params) =~= seq![it]);
                assert(kept@ + rest@.filter(|f: FnInfo| f.params <= params) =~= kk + before.filter(|f: FnInfo| f.params <= params));
            }
        } else {
            proof {
                assert(seq![it].filter(|f: FnInfo| f.params <= params) =~= Seq::<FnInfo>::empty());
                assert(rest@.filter(|f: FnInfo| f.params <= params) =~= before.filter(|f: FnInfo| f.params <= params));
            }
        }
    }
    proof {
        assert(rest@.filter(|f: FnInfo| f.params <= params) =~= Seq::<FnInfo>::empty());
        assert(kept@ =~= deduped.filter(|f: FnInfo| f.params <= params));
    }
    kept
}

/// The fewest residual errors among `cands`.
pub open spec fn min_errors(cands: Seq<TranslationResult>) -> usize
    decreases cands.len(),
{
    if cands.len() == 0 {
        0
    } else if cands.len() == 1 {
        cands[0].errors
    } else if cands.last().errors < min_errors(cands.drop_last()) {
        cands.last().errors
    } else {
        min_errors(cands.drop_last())
    }
}

/// Keeps the candidates with the fewest residual errors, in order.
pub fn fewest_errors(cands: Vec<TranslationResult>) -> (r: Vec<TranslationResult>)
    ensures
        r@ == cands@.filter(|c: TranslationResult| c.errors == min_errors(cands@)),
{
    let ghost all = cands@;
    let mut best: usize = 0;
    let mut i: usize = 0;
    while i < cands.len()
        invariant
            i <= cands@.len(),
            all == cands@,
            i > 0 ==> best == min_errors(cands@.subrange(0, i as int)),
        decreases cands@.len() - i,
    {
        proof {
            assert(cands@.subrange(0, i + 1).drop_last() =~= cands@.subrange(0, i as int));
        }
        if i == 0 || cands[i].errors < best {
            best = cands[i].errors;
        }
        i = i + 1;
    }
    proof {
        assert(cands@.subrange(0, cands@.len() as int) =~= cands@);
    }
    let mut kept: Vec<TranslationResult> = Vec::new();
    let mut rest = cands;
    while rest.len() > 0
        invariant
            all.len() > 0 ==> best == min_errors(all),
            rest@.len() <= all.len(),
            kept@ + rest@.filter(|c: TranslationResult| c.errors == min_errors(all))
                == all.filter(|c: TranslationResult| c.errors == min_errors(all)),
        decreases rest@.len(),
    {
        let ghost before = rest@;
        let it = rest.remove(0);
        proof {
            assert(rest@ =~= before.drop_first());
            assert(before =~= seq![it] + rest@);
            Seq::filter_distributes_over_add(seq![it], rest@, |c: TranslationResult| c.errors == min_errors(all));
            reveal_with_fuel(Seq::filter, 2);
        }
        if it.errors == best {
            let ghost kk = kept@;
            kept.push(it);
            proof {
                assert(seq![it].filter(|c: TranslationResult| c.errors == min_errors(all)) =~= seq![it]);
                assert(kept@ + rest@.filter(|c: TranslationResult| c.errors == min_errors(all))
                    =~= kk + before.filter(|c: TranslationResult| c.errors == min_errors(all)));
            }
        } else {
            proof {
                assert(seq![it].filter(|c: TranslationResult| c.errors == min_errors(all)) =~= Seq::<TranslationResult>::empty());
                assert(rest@.filter(|c: TranslationResult| c.errors == min_errors(all))
                    =~= before.filter(|c: TranslationResult| c.errors == min_errors(all)));
            }
        }
    }
    proof {
        assert(rest@.filter(|c: TranslationResult| c.errors == min_errors(all)) =~= Seq::<TranslationResult>::empty());
        assert(kept@ =~= all.filter(|c: TranslationResult| c.errors == min_errors(all)));
    }
    kept
}

/// Marks every candidate as holding only a signature.
pub fn mark_signature_only(cands: Vec<TranslationResult>) -> (r: Vec<TranslationResult>)
    ensures
        r@.len() == cands@.len(),
        forall|k: int| 0 <= k < r@.len() ==> #[trigger] r@[k] == (TranslationResult { signature_only: true, ..cands@[k] }),
{
    let ghost all = cands@;
    let mut out: Vec<TranslationResult> = Vec::new();
    let mut rest = cands;
    let mut k: usize = 0;
    let total = rest.len();
    while rest.len() > 0
        invariant
            k + rest@.len() == all.len(),
            all.len() == total,
            rest@ == all.subrange(k as int, all.len() as int),
            out@.len() == k,
            forall|j: int| 0 <= j < k ==> #[trigger] out@[j] == (TranslationResult { signature_only: true, ..all[j] }),
        decreases rest@.len(),
    {
        let mut it = rest.remove(0);
        proof {
            assert(rest@ =~= all.subrange(k + 1, all.len() as int));
            assert(it == all[k as int]);
        }
        it.signature_only = true;
        out.push(it);
        k = k + 1;
    }
    out
}

/// One step of the pairwise ranking: the model compared the current best with a
/// candidate; the candidate wins exactly when the best ranked below it.
pub fn ranking_step(best: TranslationResult, cand: TranslationResult, best_vs_cand: core::cmp::Ordering) -> (r: TranslationResult)
    ensures
        r == if best_vs_cand == core::cmp::Ordering::Less { cand } else { best },
{
    match best_vs_cand {
        core::cmp::Ordering::Less => cand,
        _ => best,
    }
}

/// Whether the sweep over the signatures has to be repeated with the signature-only body:
/// no signature produced a candidate.
pub fn needs_signature_stub(cands: &Vec<TranslationResult>) -> (r: bool)
    ensures
        r == (cands@.len() == 0),
{
    cands.len() == 0
}

/// What follows the model's reply to a global's full declaration.
#[derive(Debug, Clone)]
pub enum GlobalReply {
    /// Take this translation; `signature_only` says whether the initializer was left out.
    Use { text: String, signature_only: bool },
    /// Ask again with the initializer stripped.
    AskWithoutInitializer,
}

/// The full translation where the model gave one, else a request for the declaration alone.
pub fn after_full_reply(reply: Option<String>) -> (r: GlobalReply)
    ensures
        reply matches Some(t) ==> r == (GlobalReply::Use { text: t, signature_only: false }),
        reply is None ==> r is AskWithoutInitializer,
{
    match reply {
        Some(t) => GlobalReply::Use { text: t, signature_only: false },
        None => GlobalReply::AskWithoutInitializer,
    }
}

/// The reply to the declaration without its initializer, marked as holding only a
/// signature; `None` where the model failed again.
pub fn after_declaration_reply(reply: Option<String>) -> (r: Option<GlobalReply>)
    ensures
        reply matches Some(t) ==> r == Some(GlobalReply::Use { text: t, signature_only: true }),
        reply is None ==> r is None,
{
    match reply {
        Some(t) => Some(GlobalReply::Use { text: t, signature_only: true }),
        None => None,
    }
}

} // verus!
