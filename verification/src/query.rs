//! The read path the notifier uses: every wishlist joined with its items and
//! each item's price snapshots, most recent first.

use vstd::prelude::*;
use crate::store::{EbookRow, SnapshotRow, Store, WishListRow, has_ebook, rel_has};

verus! {

/// One item of a joined wishlist: the product row and its snapshot series,
/// ordered by scrape time descending, so the first row is the latest.
pub struct JoinedEbook {
    pub ebook: EbookRow,
    pub snapshots: Vec<SnapshotRow>,
}

/// One wishlist with all its items joined.
pub struct JoinedWishList {
    pub wish_list: WishListRow,
    pub items: Vec<JoinedEbook>,
}

proof fn contains_intro<T>(s: Seq<T>, k: int)
    requires
        0 <= k < s.len(),
    ensures
        s.contains(s[k]),
{
    assert(exists|i: int| 0 <= i < s.len() && s[i] == s[k]) by {
        assert(0 <= k < s.len() && s[k] == s[k]);
    }
}

pub open spec fn snapshots_sorted_desc(s: Seq<SnapshotRow>) -> bool {
    forall|i: int, j: int|
        0 <= i < j < s.len() ==> (#[trigger] s[i]).scraped_at >= (#[trigger] s[j]).scraped_at
}

/// The snapshot list of a joined item holds exactly the stored snapshots of
/// that product, newest first.
pub open spec fn joined_snapshots_ok(all: Seq<SnapshotRow>, je: JoinedEbook) -> bool {
    &&& snapshots_sorted_desc(je.snapshots@)
    &&& forall|k: int|
        0 <= k < je.snapshots@.len() ==> (#[trigger] je.snapshots@[k]).ebook_id@ == je.ebook.id@
            && all.contains(je.snapshots@[k])
    &&& forall|k: int|
        0 <= k < all.len() && (#[trigger] all[k]).ebook_id@ == je.ebook.id@
            ==> je.snapshots@.contains(all[k])
}

/// A joined wishlist is faithful to the store: each entry is a stored
/// product related to this wishlist with its full snapshot series, and every
/// related product the store knows appears.
pub open spec fn joined_wish_list_ok(s: Store, jw: JoinedWishList) -> bool {
    &&& forall|k: int|
        0 <= k < jw.items@.len() ==> {
            &&& s.ebooks@.contains((#[trigger] jw.items@[k]).ebook)
            &&& rel_has(s.relations@, jw.wish_list.id@, jw.items@[k].ebook.id@)
            &&& joined_snapshots_ok(s.snapshots@, jw.items@[k])
        }
    &&& forall|e: Seq<char>|
        #[trigger] rel_has(s.relations@, jw.wish_list.id@, e) && has_ebook(s.ebooks@, e)
            ==> exists|k: int| 0 <= k < jw.items@.len() && (#[trigger] jw.items@[k]).ebook.id@ == e
}

/// Inserts a snapshot row into a list kept sorted by scrape time descending.
fn insert_sorted_desc(v: &mut Vec<SnapshotRow>, row: SnapshotRow)
    requires
        snapshots_sorted_desc(old(v)@),
    ensures
        snapshots_sorted_desc(final(v)@),
        final(v)@.len() == old(v)@.len() + 1,
        final(v)@.contains(row),
        forall|x: SnapshotRow| #[trigger] final(v)@.contains(x) <==> old(v)@.contains(x) || x == row,
        forall|k: int|
            0 <= k < final(v)@.len() ==> (#[trigger] final(v)@[k]).ebook_id@ == row.ebook_id@
                || old(v)@.contains(final(v)@[k]),
{
    let ghost before = v@;
    let mut k: usize = 0;
    while k < v.len() && v[k].scraped_at > row.scraped_at
        invariant
            before == v@,
            k <= v@.len(),
            forall|i: int| 0 <= i < k ==> (#[trigger] v@[i]).scraped_at > row.scraped_at,
        decreases v@.len() - k,
    {
        k = k + 1;
    }
    v.insert(k, row);
    proof {
        let cur = v@;
        assert(cur == before.insert(k as int, row));
        assert forall|i: int, j: int|
            0 <= i < j < cur.len() implies (#[trigger] cur[i]).scraped_at
            >= (#[trigger] cur[j]).scraped_at by {
            if i < k && j == k {
                assert(cur[i] == before[i]);
            } else if i == k && j > k {
                assert(cur[j] == before[j - 1]);
                assert(k < before.len());
                assert(before[k as int].scraped_at <= row.scraped_at);
            } else if i < k && j > k {
                assert(cur[i] == before[i] && cur[j] == before[j - 1]);
            } else if i != k && j != k {
                assert(cur[i] == before[if i < k {
                    i
                } else {
                    i - 1
                }]);
            }
        };
        assert(cur[k as int] == row);
        assert(cur.contains(row));
        assert forall|x: SnapshotRow| #[trigger] cur.contains(x) implies before.contains(x) || x
            == row by {
            let w = choose|w: int| 0 <= w < cur.len() && cur[w] == x;
            if w < k {
                assert(before[w] == x);
            } else if w > k {
                assert(before[w - 1] == x);
            }
        };
        assert forall|x: SnapshotRow| before.contains(x) implies #[trigger] cur.contains(x) by {
            let w = choose|w: int| 0 <= w < before.len() && before[w] == x;
            if w < k {
                assert(cur[w] == x);
            } else {
                assert(cur[w + 1] == x);
            }
        };
        assert forall|i: int|
            0 <= i < cur.len() implies (#[trigger] cur[i]).ebook_id@ == row.ebook_id@
            || before.contains(cur[i]) by {
            if i < k {
                assert(before[i] == cur[i]);
            } else if i > k {
                assert(before[i - 1] == cur[i]);
            }
        };
    }
}

fn copy_snapshot_row(s: &SnapshotRow) -> (r: SnapshotRow)
    ensures
        r == *s,
{
    SnapshotRow {
        ebook_id: s.ebook_id.clone(),
        scraped_at: s.scraped_at,
        thumbnail_url: s.thumbnail_url.clone(),
        price: s.price,
        points: s.points,
        points_rate: s.points_rate,
        discount: s.discount,
        discount_rate: s.discount_rate,
    }
}

/// The snapshot series of one product, newest first.
fn snapshots_of(all: &Vec<SnapshotRow>, id: &String) -> (r: Vec<SnapshotRow>)
    ensures
        snapshots_sorted_desc(r@),
        forall|k: int|
            0 <= k < r@.len() ==> (#[trigger] r@[k]).ebook_id@ == id@ && all@.contains(r@[k]),
        forall|k: int|
            0 <= k < all@.len() && (#[trigger] all@[k]).ebook_id@ == id@ ==> r@.contains(all@[k]),
{
    let mut out: Vec<SnapshotRow> = Vec::new();
    let mut i: usize = 0;
    while i < all.len()
        invariant
            i <= all@.len(),
            snapshots_sorted_desc(out@),
            forall|k: int|
                0 <= k < out@.len() ==> (#[trigger] out@[k]).ebook_id@ == id@ && all@.contains(
                    out@[k],
                ),
            forall|k: int|
                0 <= k < i && (#[trigger] all@[k]).ebook_id@ == id@ ==> out@.contains(all@[k]),
        decreases all@.len() - i,
    {
        let ghost prev = out@;
        if all[i].ebook_id.eq(id) {
            let row = copy_snapshot_row(&all[i]);
            proof {
                assert(all@.contains(all@[i as int])) by {
                    assert((#[trigger] all@[i as int]) == all@[i as int]);
                };
            }
            insert_sorted_desc(&mut out, row);
            proof {
                assert forall|k: int|
                    0 <= k < out@.len() implies (#[trigger] out@[k]).ebook_id@ == id@
                    && all@.contains(out@[k]) by {
                    contains_intro(out@, k);
                    if out@[k] == row {
                        assert(all@.contains(out@[k]));
                    } else {
                        assert(prev.contains(out@[k]));
                        let w = choose|w: int| 0 <= w < prev.len() && prev[w] == out@[k];
                        assert((#[trigger] prev[w]).ebook_id@ == id@);
                    }
                };
                assert forall|k: int|
                    0 <= k < i + 1 && (#[trigger] all@[k]).ebook_id@ == id@ implies out@.contains(
                    all@[k],
                ) by {
                    if k < i {
                        assert(prev.contains(all@[k]));
                    }
                };
            }
        }
        i = i + 1;
    }
    out
}

impl Store {
    /// Every wishlist with its items and their snapshot series joined, the
    /// series ordered most recent first.
    pub fn select_all_with_snapshot(&self) -> (r: Vec<JoinedWishList>)
        requires
            self.inv(),
        ensures
            r@.len() == self.wish_lists@.len(),
            forall|k: int|
                0 <= k < r@.len() ==> (#[trigger] r@[k]).wish_list == self.wish_lists@[k]
                    && joined_wish_list_ok(*self, r@[k]),
    {
        let mut out: Vec<JoinedWishList> = Vec::new();
        let mut i: usize = 0;
        while i < self.wish_lists.len()
            invariant
                self.inv(),
                i <= self.wish_lists@.len(),
                out@.len() == i,
                forall|k: int|
                    0 <= k < out@.len() ==> (#[trigger] out@[k]).wish_list == self.wish_lists@[k]
                        && joined_wish_list_ok(*self, out@[k]),
            decreases self.wish_lists@.len() - i,
        {
            let w = &self.wish_lists[i];
            let mut items: Vec<JoinedEbook> = Vec::new();
            let mut j: usize = 0;
            while j < self.relations.len()
                invariant
                    self.inv(),
                    i < self.wish_lists@.len(),
                    w == &self.wish_lists@[i as int],
                    j <= self.relations@.len(),
                    forall|k: int|
                        0 <= k < items@.len() ==> {
                            &&& self.ebooks@.contains((#[trigger] items@[k]).ebook)
                            &&& rel_has(self.relations@, w.id@, items@[k].ebook.id@)
                            &&& joined_snapshots_ok(self.snapshots@, items@[k])
                        },
                    forall|k: int|
                        0 <= k < j && (#[trigger] self.relations@[k]).wish_list_id@ == w.id@
                            && has_ebook(self.ebooks@, self.relations@[k].ebook_id@)
                            ==> exists|m: int|
                            0 <= m < items@.len() && (#[trigger] items@[m]).ebook.id@
                                == self.relations@[k].ebook_id@,
                decreases self.relations@.len() - j,
            {
                let rel = &self.relations[j];
                if rel.wish_list_id.eq(&w.id) {
                    match self.find_ebook_row(&rel.ebook_id) {
                        None => {
                            proof {
                                assert(!has_ebook(self.ebooks@, self.relations@[j as int].ebook_id@));
                            }
                        },
                        Some(row) => {
                            let ghost prev = items@;
                            let snaps = snapshots_of(&self.snapshots, &rel.ebook_id);
                            proof {
                                assert(rel_has(self.relations@, w.id@, self.relations@[j as int].ebook_id@)) by {
                                    assert((#[trigger] self.relations@[j as int]).wish_list_id@
                                        == w.id@);
                                };
                            }
                            items.push(JoinedEbook { ebook: row, snapshots: snaps });
                            proof {
                                assert(items@ == prev.push(items@.last()));
                                assert forall|k: int|
                                    0 <= k < j + 1 && (#[trigger] self.relations@[k]).wish_list_id@
                                        == w.id@ && has_ebook(
                                        self.ebooks@,
                                        self.relations@[k].ebook_id@,
                                    ) implies exists|m: int|
                                    0 <= m < items@.len() && (#[trigger] items@[m]).ebook.id@
                                        == self.relations@[k].ebook_id@ by {
                                    if k < j {
                                        let m = choose|m: int|
                                            0 <= m < prev.len() && (#[trigger] prev[m]).ebook.id@
                                                == self.relations@[k].ebook_id@;
                                        assert((#[trigger] items@[m]).ebook.id@
                                            == self.relations@[k].ebook_id@);
                                    } else {
                                        assert((#[trigger] items@[items@.len() - 1]).ebook.id@
                                            == self.relations@[k].ebook_id@);
                                    }
                                };
                            }
                        },
                    }
                }
                j = j + 1;
            }
            proof {
                assert forall|e: Seq<char>|
                    #[trigger] rel_has(self.relations@, w.id@, e) && has_ebook(self.ebooks@, e)
                    implies exists|m: int|
                    0 <= m < items@.len() && (#[trigger] items@[m]).ebook.id@ == e by {
                    let k = choose|k: int|
                        0 <= k < self.relations@.len()
                            && (#[trigger] self.relations@[k]).wish_list_id@ == w.id@
                            && self.relations@[k].ebook_id@ == e;
                };
            }
            let ghost iv = items@;
            let jw = JoinedWishList {
                wish_list: WishListRow {
                    id: w.id.clone(),
                    url: w.url.clone(),
                    scraped_at: w.scraped_at,
                    title: w.title.clone(),
                },
                items,
            };
            proof {
                assert(jw.wish_list == self.wish_lists@[i as int]);
                assert(jw.items@ == iv);
                assert(joined_wish_list_ok(*self, jw)) by {
                    assert forall|e: Seq<char>|
                        #[trigger] rel_has(self.relations@, jw.wish_list.id@, e) && has_ebook(
                            self.ebooks@,
                            e,
                        ) implies exists|k: int|
                        0 <= k < jw.items@.len() && (#[trigger] jw.items@[k]).ebook.id@ == e by {
                        let m = choose|m: int|
                            0 <= m < iv.len() && (#[trigger] iv[m]).ebook.id@ == e;
                        assert((#[trigger] jw.items@[m]).ebook.id@ == e);
                    };
                };
            }
            out.push(jw);
            i = i + 1;
        }
        out
    }

    /// The stored row of one product, copied out.
    fn find_ebook_row(&self, id: &String) -> (r: Option<EbookRow>)
        ensures
            r matches Some(row) ==> self.ebooks@.contains(row) && row.id@ == id@,
            r is None ==> !has_ebook(self.ebooks@, id@),
    {
        let mut i: usize = 0;
        while i < self.ebooks.len()
            invariant
                i <= self.ebooks@.len(),
                forall|k: int| 0 <= k < i ==> (#[trigger] self.ebooks@[k]).id@ != id@,
            decreases self.ebooks@.len() - i,
        {
            let e = &self.ebooks[i];
            if e.id.eq(id) {
                let row = EbookRow {
                    id: e.id.clone(),
                    url: e.url.clone(),
                    title: e.title.clone(),
                    price: e.price.clone(),
                };
                proof {
                    assert(row == self.ebooks@[i as int]);
                    assert(self.ebooks@.contains(row)) by {
                        assert((#[trigger] self.ebooks@[i as int]) == row);
                    };
                }
                return Some(row);
            }
            i = i + 1;
        }
        None
    }
}

} // verus!
