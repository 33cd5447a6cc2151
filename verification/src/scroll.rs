//! Cursor-based pagination over a collection, in ascending id order.

use vstd::prelude::*;
use crate::collection::Collection;
use crate::error::EngineError;
use crate::filter::{filter_ok, Filter};
use crate::model::{all_slots, in_page, slot, Points};
use crate::ranking::{all_wf, covers, lemma_covers_persists, ranked, ScoredPoint};
use crate::segment::Record;

verus! {

/// One page of a scroll.
#[derive(Clone, Debug, PartialEq, Eq)]
pub struct Page {
    /// The points of the page, by ascending id.
    pub points: Vec<Record>,
    /// The cursor to ask the next page with: the last id of this page, or
    /// `None` where this page ends the collection.
    pub next: Option<u64>,
}

/// The ids of a list of records.
pub open spec fn record_ids(points: Seq<Record>) -> Seq<u64> {
    points.map_values(|r: Record| r.id)
}

/// Strictly ascending.
pub open spec fn ascending(ids: Seq<u64>) -> bool {
    forall|i: int, j: int| 0 <= i < j < ids.len() ==> ids[i] < ids[j]
}

/// `ids` with `next` is the page of at most `limit` points after `cursor`:
/// the smallest ids that belong there, in ascending order, and the cursor
/// for the page that follows, if any point is left for it.
pub open spec fn is_page(
    m: Points,
    filter: Filter,
    cursor: Option<u64>,
    limit: int,
    ids: Seq<u64>,
    next: Option<u64>,
) -> bool {
    &&& ids.len() <= limit
    &&& ascending(ids)
    &&& forall|i: int| 0 <= i < ids.len() ==> in_page(m, filter, cursor, #[trigger] ids[i])
    &&& forall|id: u64| #[trigger]
        in_page(m, filter, cursor, id) ==> ids.contains(id) || (ids.len() == limit && ids[limit
            - 1] < id)
    &&& match next {
        Some(c) => ids.len() == limit && c == ids[limit - 1] && exists|id: u64|
            in_page(m, filter, Some(c), id),
        None => forall|id: u64| #[trigger] in_page(m, filter, cursor, id) ==> ids.contains(id),
    }
}

impl Collection {
    /// Tells whether any point belongs on the page after `cursor`.
    pub fn has_beyond(&self, filter: &Filter, cursor: u64) -> (r: bool)
        requires
            self.wf(),
        ensures
            r == exists|id: u64| in_page(self@, *filter, Some(cursor), id),
    {
        let n: usize = self.segments.len();
        let mut s: usize = 0;
        while s < n
            invariant
                self.wf(),
                n == self.segments@.len(),
                s <= n,
                forall|id: u64|
                    self.home(id) < s ==> !#[trigger] in_page(self@, *filter, Some(cursor), id),
            decreases n - s,
        {
            if self.segments[s].has_beyond(filter, cursor) {
                proof {
                    let id = choose|id: u64|
                        in_page(self.segments@[s as int]@, *filter, Some(cursor), id);
                    self.lemma_segment_view(s as int, id);
                    assert(in_page(self@, *filter, Some(cursor), id));
                }
                return true;
            }
            proof {
                assert forall|id: u64| self.home(id) < s + 1 implies !#[trigger] in_page(
                    self@,
                    *filter,
                    Some(cursor),
                    id,
                ) by {
                    if self.home(id) == s && in_page(self@, *filter, Some(cursor), id) {
                        assert(in_page(self.segments@[s as int]@, *filter, Some(cursor), id));
                    }
                }
            }
            s = s + 1;
        }
        false
    }

    /// Returns the page of at most `limit` points that follows `cursor`:
    /// the live points that satisfy `filter` and whose id lies strictly
    /// after the cursor, by ascending id. Without a cursor the page starts
    /// at the smallest id.
    ///
    /// A page of no points cannot be asked for, and a malformed filter is
    /// rejected.
    pub fn scroll(&self, filter: &Filter, cursor: Option<u64>, limit: usize) -> (r: Result<
        Page,
        EngineError,
    >)
        requires
            self.wf(),
        ensures
            match r {
                Err(e) => if limit == 0 {
                    e == EngineError::BadRequest
                } else {
                    e == EngineError::BadFilter && !filter_ok(*filter)
                },
                Ok(page) => {
                    &&& limit > 0
                    &&& filter_ok(*filter)
                    &&& is_page(
                        self@,
                        *filter,
                        cursor,
                        limit as int,
                        record_ids(page.points@),
                        page.next,
                    )
                    &&& forall|i: int|
                        0 <= i < page.points@.len() ==> (#[trigger] page.points@[i]).shows(
                            self@,
                            page.points@[i].id,
                        )
                },
            },
    {
        if limit == 0 {
            return Err(EngineError::BadRequest);
        }
        if !filter.validate() {
            return Err(EngineError::BadFilter);
        }
        let mut buf: Vec<ScoredPoint> = Vec::new();
        let n: usize = self.segments.len();
        let mut s: usize = 0;
        while s < n
            invariant
                self.wf(),
                n == self.segments@.len(),
                s <= n,
                buf@.len() <= limit,
                ranked(buf@),
                all_slots(buf@),
                forall|i: int|
                    0 <= i < buf@.len() ==> in_page(self@, *filter, cursor, (#[trigger] buf@[i]).id)
                        && self.home(buf@[i].id) < s,
                forall|id: u64|
                    self.home(id) < s && #[trigger] in_page(self@, *filter, cursor, id) ==> covers(
                        buf@,
                        limit as int,
                        slot(id),
                    ),
            decreases n - s,
        {
            let ghost g = buf@;
            let ghost seg = self.segments@[s as int];
            self.segments[s].fill_page(filter, cursor, limit, &mut buf);
            proof {
                let h = buf@;
                assert forall|i: int| 0 <= i < h.len() implies in_page(
                    self@,
                    *filter,
                    cursor,
                    (#[trigger] h[i]).id,
                ) && self.home(h[i].id) < s + 1 by {
                    if g.contains(h[i]) {
                        let w = choose|w: int| 0 <= w < g.len() && g[w] == h[i];
                        assert(self.home(g[w].id) < s);
                    } else {
                        self.lemma_segment_view(s as int, h[i].id);
                    }
                }
                assert(all_wf(g)) by {
                    assert forall|i: int| 0 <= i < g.len() implies (#[trigger] g[i]).score.wf() by {
                        assert(g[i] == slot(g[i].id));
                    }
                }
                assert(all_wf(h)) by {
                    assert forall|i: int| 0 <= i < h.len() implies (#[trigger] h[i]).score.wf() by {
                        assert(h[i] == slot(h[i].id));
                    }
                }
                assert forall|id: u64|
                    self.home(id) < s + 1 && #[trigger] in_page(
                        self@,
                        *filter,
                        cursor,
                        id,
                    ) implies covers(h, limit as int, slot(id)) by {
                    if self.home(id) < s {
                        lemma_covers_persists(g, h, limit as int, slot(id));
                    } else {
                        assert(in_page(seg@, *filter, cursor, id));
                    }
                }
            }
            s = s + 1;
        }
        let mut points: Vec<Record> = Vec::new();
        let mut i: usize = 0;
        while i < buf.len()
            invariant
                self.wf(),
                i <= buf@.len(),
                points@.len() == i,
                forall|j: int|
                    0 <= j < buf@.len() ==> in_page(self@, *filter, cursor, (#[trigger] buf@[j]).id),
                forall|j: int|
                    0 <= j < i ==> (#[trigger] points@[j]).shows(self@, buf@[j].id),
            decreases buf@.len() - i,
        {
            match self.get_point(buf[i].id) {
                Ok(record) => {
                    points.push(record);
                },
                Err(_) => {
                    assert(in_page(self@, *filter, cursor, buf@[i as int].id));
                    assert(false);
                },
            }
            i = i + 1;
        }
        let next: Option<u64> = if buf.len() == limit {
            let last: u64 = buf[limit - 1].id;
            if self.has_beyond(filter, last) {
                Some(last)
            } else {
                None
            }
        } else {
            None
        };
        proof {
            let ids = record_ids(points@);
            assert(ids.len() == buf@.len());
            assert forall|j: int| 0 <= j < ids.len() implies #[trigger] ids[j] == buf@[j].id by {
                assert(points@[j].shows(self@, buf@[j].id));
            }
            assert forall|a: int, b: int| 0 <= a < b < ids.len() implies ids[a] < ids[b] by {
                assert(crate::ranking::outranks(buf@[a], buf@[b]));
                assert(buf@[a] == slot(buf@[a].id) && buf@[b] == slot(buf@[b].id));
            }
            assert forall|id: u64| #[trigger] in_page(self@, *filter, cursor, id) implies ids.contains(
                id,
            ) || (ids.len() == limit && ids[limit - 1] < id) by {
                assert(covers(buf@, limit as int, slot(id)));
                if buf@.contains(slot(id)) {
                    let w = choose|w: int| 0 <= w < buf@.len() && buf@[w] == slot(id);
                    assert(ids[w] == id);
                } else {
                    assert(crate::ranking::outranks(buf@[limit - 1], slot(id)));
                    assert(buf@[limit - 1] == slot(buf@[limit - 1].id));
                }
            }
            assert forall|j: int| 0 <= j < points@.len() implies (#[trigger] points@[j]).shows(
                self@,
                points@[j].id,
            ) by {
                assert(points@[j].shows(self@, buf@[j].id));
            }
            assert forall|j: int| 0 <= j < ids.len() implies in_page(
                self@,
                *filter,
                cursor,
                #[trigger] ids[j],
            ) by {
                assert(ids[j] == buf@[j].id);
            }
            if next is None {
                assert forall|id: u64| #[trigger] in_page(self@, *filter, cursor, id) implies ids.contains(
                    id,
                ) by {
                    if !ids.contains(id) {
                        assert(in_page(self@, *filter, Some(ids[limit - 1]), id));
                    }
                }
            }
        }
        Ok(Page { points, next })
    }
}

} // verus!
