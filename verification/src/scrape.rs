//! The compute core of one scrape cycle: classify a fetched batch of hits
//! and keep the qualifying items, in order.  The caller drives the page
//! loop, hands each page's hits in, and stores the accumulated items once
//! per cycle.

use vstd::prelude::*;

verus! {

use crate::client::{Hit, HitV, hits_v};
use crate::store::{Item, ItemKind, ItemV, views_of, classified, qualifies};

/// `its` is exactly the sequence of items classification yields for the
/// qualifying hits of `hs`, in order; non-qualifying hits yield nothing.
pub open spec fn collected(hs: Seq<HitV>, its: Seq<ItemV>) -> bool
    decreases hs.len(),
{
    if hs.len() == 0 {
        its.len() == 0
    } else if qualifies(hs[0]) {
        its.len() > 0 && classified(hs[0], its[0]) && collected(hs.skip(1), its.skip(1))
    } else {
        collected(hs.skip(1), its)
    }
}

proof fn lemma_collected_push(hs: Seq<HitV>, its: Seq<ItemV>, h: HitV, extra: Seq<ItemV>)
    requires
        collected(hs, its),
        qualifies(h) ==> extra.len() == 1 && classified(h, extra[0]),
        !qualifies(h) ==> extra.len() == 0,
    ensures
        collected(hs.push(h), its + extra),
    decreases hs.len(),
{
    reveal_with_fuel(collected, 3);
    if hs.len() == 0 {
        assert(hs.push(h)[0] == h);
        assert(hs.push(h).skip(1) =~= Seq::<HitV>::empty());
        assert(its.len() == 0);
        assert(its + extra =~= extra);
        if qualifies(h) {
            assert((its + extra)[0] == extra[0]);
            assert((its + extra).skip(1) =~= Seq::<ItemV>::empty());
        }
    } else {
        assert(hs.push(h)[0] == hs[0]);
        assert(hs.push(h).skip(1) =~= hs.skip(1).push(h));
        if qualifies(hs[0]) {
            assert(its.len() > 0);
            assert((its + extra)[0] == its[0]);
            assert((its + extra).skip(1) =~= its.skip(1) + extra);
            lemma_collected_push(hs.skip(1), its.skip(1), h, extra);
        } else {
            lemma_collected_push(hs.skip(1), its, h, extra);
        }
    }
}

/// Every item a cycle collects comes from a qualifying hit, so its kind is
/// never `Unknown`: classification is the filter that keeps non-qualifying
/// records out of the store.
pub proof fn lemma_collected_classified(hs: Seq<HitV>, its: Seq<ItemV>)
    requires
        collected(hs, its),
    ensures
        forall|j: int| 0 <= j < its.len() ==> (#[trigger] its[j]).kind != ItemKind::Unknown,
    decreases hs.len(),
{
    if hs.len() > 0 {
        if qualifies(hs[0]) {
            lemma_collected_classified(hs.skip(1), its.skip(1));
            assert forall|j: int|
                0 <= j < its.len() implies (#[trigger] its[j]).kind != ItemKind::Unknown by {
                if j > 0 {
                    assert(its.skip(1)[j - 1] == its[j]);
                }
            }
        } else {
            lemma_collected_classified(hs.skip(1), its);
        }
    }
}

/// Classifies every hit of one fetched batch and keeps the qualifying
/// items, in order.
pub fn collect_items(hits: &Vec<Hit>) -> (r: Vec<Item>)
    ensures
        collected(hits_v(hits@), views_of(r@)),
{
    let mut out: Vec<Item> = Vec::new();
    let n = hits.len();
    let mut i: usize = 0;
    proof {
        assert(hits_v(hits@).take(0) =~= Seq::<HitV>::empty());
        assert(views_of(out@) =~= Seq::<ItemV>::empty());
    }
    while i < n
        invariant
            n == hits@.len(),
            i <= n,
            collected(hits_v(hits@).take(i as int), views_of(out@)),
        decreases n - i,
    {
        let ghost hsi = hits_v(hits@).take(i as int);
        let ghost o0 = views_of(out@);
        let ghost h = hits@[i as int]@;
        match Item::from_hit(&hits[i]) {
            Ok(it) => {
                let ghost extra = seq![it@];
                proof {
                    lemma_collected_push(hsi, o0, h, extra);
                }
                out.push(it);
                proof {
                    assert(views_of(out@) =~= o0 + extra);
                }
            },
            Err(_) => {
                proof {
                    lemma_collected_push(hsi, o0, h, Seq::<ItemV>::empty());
                    assert(o0 + Seq::<ItemV>::empty() =~= o0);
                }
            },
        }
        proof {
            assert(hsi.push(h) =~= hits_v(hits@).take(i as int + 1));
        }
        i += 1;
    }
    proof {
        assert(hits_v(hits@).take(n as int) =~= hits_v(hits@));
    }
    out
}

} // verus!
