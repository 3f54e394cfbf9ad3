use vstd::prelude::*;

use crate::model::{parts_view, PartView, TemplatePart};

verus! {

/// Whether two segments are of one kind that merges: text, code or expression.
pub open spec fn same_kind(a: PartView, b: PartView) -> bool {
    (a is Text && b is Text) || (a is Code && b is Code) || (a is Expr && b is Expr)
}

/// Two segments of one kind made into one by concatenating their contents.
pub open spec fn join(a: PartView, b: PartView) -> PartView {
    match (a, b) {
        (PartView::Text(x), PartView::Text(y)) => PartView::Text(x + y),
        (PartView::Code(x), PartView::Code(y)) => PartView::Code(x + y),
        (PartView::Expr(x), PartView::Expr(y)) => PartView::Expr(x + y),
        _ => a,
    }
}

/// An empty text or code segment, which the merge drops.
pub open spec fn is_blank(p: PartView) -> bool {
    (p is Text && p->Text_0.len() == 0) || (p is Code && p->Code_0.len() == 0)
}

/// One more segment added to merged segments.
pub open spec fn merge_into(acc: Seq<PartView>, p: PartView) -> Seq<PartView> {
    if is_blank(p) {
        acc
    } else if acc.len() > 0 && same_kind(acc.last(), p) {
        acc.drop_last().push(join(acc.last(), p))
    } else {
        acc.push(p)
    }
}

/// The segments with runs of one kind merged and empty text and code dropped.
pub open spec fn merge(s: Seq<PartView>) -> Seq<PartView>
    decreases s.len(),
{
    if s.len() == 0 {
        s
    } else {
        merge_into(merge(s.drop_last()), s.last())
    }
}

/// Segments that merging leaves as they are: no empty text or code, and no
/// two neighbours of one mergeable kind.
pub open spec fn is_merged(s: Seq<PartView>) -> bool {
    &&& forall|i: int| 0 <= i < s.len() ==> !is_blank(#[trigger] s[i])
    &&& forall|i: int| 0 <= i < s.len() - 1 ==> !same_kind(#[trigger] s[i], s[i + 1])
}

proof fn lemma_merge_into_merged(acc: Seq<PartView>, p: PartView)
    requires
        is_merged(acc),
    ensures
        is_merged(merge_into(acc, p)),
{
    let r = merge_into(acc, p);
    if !is_blank(p) && acc.len() > 0 && same_kind(acc.last(), p) {
        assert forall|i: int| 0 <= i < r.len() implies !is_blank(#[trigger] r[i]) by {
            if i < r.len() - 1 {
                assert(r[i] == acc[i]);
            }
        }
        assert forall|i: int| 0 <= i < r.len() - 1 implies !same_kind(#[trigger] r[i], r[i + 1]) by {
            assert(r[i] == acc[i]);
            if i + 1 < r.len() - 1 {
                assert(r[i + 1] == acc[i + 1]);
            } else {
                assert(!same_kind(acc[i], acc[i + 1]));
            }
        }
    } else if !is_blank(p) {
        assert forall|i: int| 0 <= i < r.len() implies !is_blank(#[trigger] r[i]) by {
            if i < r.len() - 1 {
                assert(r[i] == acc[i]);
            }
        }
        assert forall|i: int| 0 <= i < r.len() - 1 implies !same_kind(#[trigger] r[i], r[i + 1]) by {
            assert(r[i] == acc[i]);
            if i + 1 < r.len() - 1 {
                assert(r[i + 1] == acc[i + 1]);
            }
        }
    }
}

/// What the merge returns is merged.
pub proof fn lemma_merge_is_merged(s: Seq<PartView>)
    ensures
        is_merged(merge(s)),
    decreases s.len(),
{
    if s.len() > 0 {
        lemma_merge_is_merged(s.drop_last());
        lemma_merge_into_merged(merge(s.drop_last()), s.last());
    }
}

/// Merged segments come out of the merge unchanged.
pub proof fn lemma_merge_keeps_merged(s: Seq<PartView>)
    requires
        is_merged(s),
    ensures
        merge(s) == s,
    decreases s.len(),
{
    if s.len() > 0 {
        let d = s.drop_last();
        assert(is_merged(d)) by {
            assert forall|i: int| 0 <= i < d.len() implies !is_blank(#[trigger] d[i]) by {
                assert(d[i] == s[i]);
            }
            assert forall|i: int| 0 <= i < d.len() - 1 implies !same_kind(#[trigger] d[i], d[i + 1]) by {
                assert(d[i] == s[i]);
                assert(d[i + 1] == s[i + 1]);
            }
        }
        lemma_merge_keeps_merged(d);
        assert(!is_blank(s[s.len() - 1]));
        if d.len() > 0 {
            assert(!same_kind(s[d.len() - 1], s[d.len() as int]));
        }
        assert(d.push(s.last()) == s);
    }
}

/// Merging twice gives what merging once gives.
pub proof fn lemma_merge_idempotent(s: Seq<PartView>)
    ensures
        merge(merge(s)) == merge(s),
{
    lemma_merge_is_merged(s);
    lemma_merge_keeps_merged(merge(s));
}

/// Merges neighbouring segments of one kind into one segment. A directive is
/// never merged; empty text and code segments are dropped.
pub fn parse_optimize(data: Vec<TemplatePart>) -> (r: Vec<TemplatePart>)
    ensures
        parts_view(r@) == merge(parts_view(data@)),
{
    let ghost orig = parts_view(data@);
    let n = data.len();
    let mut data = data;
    let mut combined: Vec<TemplatePart> = Vec::new();
    let mut i: usize = 0;
    while data.len() > 0
        invariant
            i + data@.len() == n == orig.len(),
            parts_view(data@) == orig.subrange(i as int, n as int),
            parts_view(combined@) == merge(orig.take(i as int)),
        decreases data@.len(),
    {
        let ghost old_data = data@;
        let item = data.remove(0);
        let ghost acc = parts_view(combined@);
        proof {
            assert(orig.take(i + 1).drop_last() == orig.take(i as int));
            assert(parts_view(old_data)[0] == orig[i as int]);
            assert forall|k: int| 0 <= k < data@.len() implies #[trigger] parts_view(data@)[k] == orig[i + 1 + k] by {
                assert(data@[k] == old_data[k + 1]);
                assert(parts_view(old_data)[k + 1] == orig[i + 1 + k]);
            }
            assert(parts_view(data@) =~= orig.subrange(i + 1, n as int));
            assert(item@ == orig[i as int]);
            assert(orig.take(i + 1).last() == orig[i as int]);
        }
        let blank = match &item {
            TemplatePart::Text(s) => s.as_str().is_empty(),
            TemplatePart::Code(s) => s.as_str().is_empty(),
            _ => false,
        };
        if !blank {
            let last = combined.pop();
            match last {
                None => {
                    combined.push(item);
                    assert(parts_view(combined@) == acc.push(item@));
                },
                Some(prev) => {
                    assert(prev@ == acc.last());
                    assert(parts_view(combined@) == acc.drop_last());
                    match (prev, item) {
                        (TemplatePart::Text(mut a), TemplatePart::Text(b)) => {
                            a.append(b.as_str());
                            combined.push(TemplatePart::Text(a));
                        },
                        (TemplatePart::Code(mut a), TemplatePart::Code(b)) => {
                            a.append(b.as_str());
                            combined.push(TemplatePart::Code(a));
                        },
                        (TemplatePart::Expr(mut a), TemplatePart::Expr(b)) => {
                            a.append(b.as_str());
                            combined.push(TemplatePart::Expr(a));
                        },
                        (prev, item) => {
                            combined.push(prev);
                            combined.push(item);
                            assert(acc.drop_last().push(acc.last()) == acc);
                        },
                    }
                    assert(parts_view(combined@) == merge_into(acc, orig[i as int]));
                },
            }
        }
        assert(parts_view(combined@) == merge_into(acc, orig[i as int]));
        i = i + 1;
    }
    assert(orig.take(n as int) == orig);
    combined
}

} // verus!
