//! Point selection for the elevation models.

use vstd::prelude::*;

verus! {

/// The return number of a point and the number of returns of its pulse.
#[derive(Clone, Copy, Debug, PartialEq, Eq, Structural)]
pub struct ReturnInfo {
    pub return_number: u8,
    pub number_of_returns: u8,
}

/// The point is the last return of its pulse.
pub open spec fn is_last_return(info: ReturnInfo) -> bool {
    info.number_of_returns > 0 && info.return_number == info.number_of_returns
}

/// The positions of the last returns, in order.
pub open spec fn last_return_positions(points: Seq<ReturnInfo>) -> Seq<usize>
    decreases points.len(),
{
    if points.len() == 0 {
        Seq::empty()
    } else {
        let earlier = last_return_positions(points.drop_last());
        if is_last_return(points.last()) {
            earlier.push((points.len() - 1) as usize)
        } else {
            earlier
        }
    }
}

/// Law: the kept positions are increasing, and a point is kept exactly
/// when its pulse has returns and the point is the last of them.
pub proof fn lemma_last_returns_kept(points: Seq<ReturnInfo>)
    requires
        points.len() <= usize::MAX,
    ensures
        forall|k: int, l: int| 0 <= k < l < last_return_positions(points).len()
            ==> #[trigger] last_return_positions(points)[k] < #[trigger] last_return_positions(points)[l],
        forall|p: int| 0 <= p < points.len() ==> (last_return_positions(points).contains(p as usize) <==> (
            #[trigger] points[p].number_of_returns > 0 && points[p].return_number == points[p].number_of_returns)),
        forall|k: int| 0 <= k < last_return_positions(points).len() ==> #[trigger] last_return_positions(points)[k]
            < points.len(),
    decreases points.len(),
{
    if points.len() > 0 {
        let shorter = points.drop_last();
        lemma_last_returns_kept(shorter);
        let earlier = last_return_positions(shorter);
        let kept = last_return_positions(points);
        let end = (points.len() - 1) as usize;
        assert(end == points.len() - 1);
        if is_last_return(points.last()) {
            assert(kept == earlier.push(end));
        } else {
            assert(kept == earlier);
        }
        assert forall|k: int, l: int| 0 <= k < l < kept.len() implies #[trigger] kept[k] < #[trigger] kept[l] by {
            assert(kept[k] == earlier[k]);
            if l < earlier.len() {
                assert(kept[l] == earlier[l]);
            }
        }
        assert forall|k: int| 0 <= k < kept.len() implies #[trigger] kept[k] < points.len() by {
            if k < earlier.len() {
                assert(kept[k] == earlier[k]);
            }
        }
        assert forall|p: int| 0 <= p < points.len() implies (kept.contains(p as usize) <==> (
            #[trigger] points[p].number_of_returns > 0 && points[p].return_number == points[p].number_of_returns)) by {
            if p < points.len() - 1 {
                assert(shorter[p] == points[p]);
                if kept.contains(p as usize) {
                    let k = choose|k: int| 0 <= k < kept.len() && kept[k] == p as usize;
                    assert(k < earlier.len());
                    assert(earlier[k] == kept[k]);
                }
                if earlier.contains(p as usize) {
                    let k = choose|k: int| 0 <= k < earlier.len() && earlier[k] == p as usize;
                    assert(kept[k] == earlier[k]);
                }
            } else {
                assert(p as usize == end);
                if kept.contains(p as usize) {
                    let k = choose|k: int| 0 <= k < kept.len() && kept[k] == p as usize;
                    if k < earlier.len() {
                        assert(kept[k] == earlier[k]);
                        assert(earlier[k] < shorter.len());
                    }
                }
                if is_last_return(points.last()) {
                    assert(kept[kept.len() - 1] == end);
                }
            }
        }
    }
}

/// The positions of the points that are the last return of their pulse, in
/// the order they come in.
pub fn filter_last_returns(points: &Vec<ReturnInfo>) -> (kept: Vec<usize>)
    ensures
        kept@ == last_return_positions(points@),
        forall|k: int| 0 <= k < kept@.len() ==> #[trigger] kept@[k] < points@.len()
            && is_last_return(points@[kept@[k] as int]),
{
    let mut kept: Vec<usize> = Vec::new();
    let mut i: usize = 0;
    while i < points.len()
        invariant
            i <= points@.len(),
            kept@ == last_return_positions(points@.subrange(0, i as int)),
            forall|k: int| 0 <= k < kept@.len() ==> #[trigger] kept@[k] < i
                && is_last_return(points@[kept@[k] as int]),
        decreases points@.len() - i,
    {
        let info = points[i];
        proof {
            assert(points@.subrange(0, i + 1).drop_last() =~= points@.subrange(0, i as int));
        }
        if info.number_of_returns > 0 && info.return_number == info.number_of_returns {
            kept.push(i);
        }
        i = i + 1;
    }
    proof {
        assert(points@.subrange(0, points@.len() as int) =~= points@);
    }
    kept
}

} // verus!
