//! The in-memory segment store: immutable segments of indexed
//! documents, a write buffer made visible atomically by `commit`,
//! deletion tombstones applied at commit, and bin-packed merging.

use vstd::prelude::*;

use crate::schema::{DocModel, Document};
use crate::stem::is_english;
use crate::urls::url_parses;
use crate::webpage::{spec_indexed, Webpage};

verus! {

/// One immutable partition of documents.
pub struct Segment {
    pub id: u64,
    pub docs: Vec<Document>,
}

/// A deletion registered by the writer, applied at the next commit.
pub enum Tombstone {
    /// Every document inserted strictly before the timestamp leaves.
    InsertedBefore(u64),
}

/// The views of a document list.
pub open spec fn docs_view(v: Vec<Document>) -> Seq<DocModel> {
    v@.map_values(|d: Document| d@)
}

/// The document views of one segment.
pub open spec fn seg_docs(s: Segment) -> Seq<DocModel> {
    docs_view(s.docs)
}

/// The document views of a run of segments, in segment order.
pub open spec fn all_docs(segs: Seq<Segment>) -> Seq<DocModel>
    decreases segs.len(),
{
    if segs.len() == 0 {
        Seq::empty()
    } else {
        all_docs(segs.drop_last()) + seg_docs(segs.last())
    }
}

/// Whether a tombstone takes the document.
pub open spec fn spec_tombstone_takes(t: Tombstone, d: DocModel) -> bool {
    match t {
        Tombstone::InsertedBefore(cutoff) => d.insertion_timestamp < cutoff,
    }
}

/// Whether some registered tombstone takes the document.
pub open spec fn spec_deleted(ts: Seq<Tombstone>, d: DocModel) -> bool {
    exists|i: int| 0 <= i < ts.len() && spec_tombstone_takes(#[trigger] ts[i], d)
}

/// The documents of a list that no tombstone takes, in order.
pub open spec fn spec_survivors(docs: Seq<DocModel>, ts: Seq<Tombstone>) -> Seq<DocModel>
    decreases docs.len(),
{
    if docs.len() == 0 {
        Seq::empty()
    } else {
        let p = spec_survivors(docs.drop_last(), ts);
        if spec_deleted(ts, docs.last()) {
            p
        } else {
            p.push(docs.last())
        }
    }
}

/// The persistent inverted index: committed segments, the write
/// buffer, and the tombstones the next commit applies.
pub struct InvertedIndex {
    pub segments: Vec<Segment>,
    pub buffer: Vec<Document>,
    pub tombstones: Vec<Tombstone>,
    pub writer_prepared: bool,
    pub auto_merge: bool,
    pub next_segment_id: u64,
    pub stemmer: rust_stemmers::Stemmer,
}

impl InvertedIndex {
    /// The store's well-formedness: an English stemmer is attached.
    pub open spec fn inv(self) -> bool {
        is_english(self.stemmer)
    }

    /// The committed documents a reader sees, in segment order. The
    /// buffer is invisible until `commit`.
    pub open spec fn spec_live_docs(self) -> Seq<DocModel> {
        all_docs(self.segments@)
    }

    /// The buffered document views, invisible to readers.
    pub open spec fn spec_buffered(self) -> Seq<DocModel> {
        docs_view(self.buffer)
    }

    /// Opens an empty store.
    pub fn open() -> (r: InvertedIndex)
        ensures
            r.inv(),
            r.spec_live_docs().len() == 0,
            r.spec_buffered().len() == 0,
            r.tombstones@.len() == 0,
            !r.writer_prepared,
    {
        let r = InvertedIndex {
            segments: Vec::new(),
            buffer: Vec::new(),
            tombstones: Vec::new(),
            writer_prepared: false,
            auto_merge: false,
            next_segment_id: 0,
            stemmer: crate::stem::english_stemmer(),
        };
        proof {
            assert(r.spec_live_docs() =~= Seq::<DocModel>::empty());
        }
        r
    }

    /// Attaches the single writer; calling it again changes nothing.
    pub fn prepare_writer(&mut self)
        ensures
            final(self).writer_prepared,
            final(self).segments == old(self).segments,
            final(self).buffer == old(self).buffer,
            final(self).tombstones == old(self).tombstones,
            final(self).auto_merge == old(self).auto_merge,
            final(self).next_segment_id == old(self).next_segment_id,
            final(self).stemmer == old(self).stemmer,
            final(self).inv() == old(self).inv(),
    {
        self.writer_prepared = true;
    }

    /// Turns background merging on for the attached writer. The store
    /// runs no background thread, so the flag only records the chosen
    /// policy for its owner to act on.
    pub fn set_auto_merge_policy(&mut self)
        requires
            old(self).writer_prepared,
        ensures
            final(self).auto_merge,
            final(self).segments == old(self).segments,
            final(self).buffer == old(self).buffer,
            final(self).tombstones == old(self).tombstones,
            final(self).writer_prepared == old(self).writer_prepared,
            final(self).next_segment_id == old(self).next_segment_id,
            final(self).stemmer == old(self).stemmer,
            final(self).inv() == old(self).inv(),
    {
        self.auto_merge = true;
    }

    /// Detaches the writer, dropping whatever was buffered and not
    /// committed.
    pub fn stop(&mut self)
        ensures
            !final(self).writer_prepared,
            final(self).segments == old(self).segments,
            final(self).inv() == old(self).inv(),
    {
        self.writer_prepared = false;
    }

    /// The number of committed segments.
    pub fn num_segments(&self) -> (r: usize)
        ensures
            r == self.segments@.len(),
    {
        self.segments.len()
    }

    /// Buffers one webpage. It fails exactly when the URL does not
    /// parse; a buffered page stays invisible to every reader until
    /// `commit` returns.
    pub fn insert(&mut self, w: Webpage) -> (r: Result<(), ()>)
        requires
            old(self).inv(),
            old(self).writer_prepared,
            old(self).buffer@.len() < u32::MAX,
        ensures
            final(self).inv(),
            final(self).writer_prepared,
            final(self).segments == old(self).segments,
            final(self).tombstones == old(self).tombstones,
            r is Ok <==> url_parses(w.url@),
            r is Ok ==> final(self).spec_buffered().len() == old(self).spec_buffered().len() + 1
                && final(self).spec_buffered() =~= old(self).spec_buffered().push(
                final(self).spec_buffered().last(),
            ) && spec_indexed(w, final(self).buffer@.last()),
            r is Err ==> final(self).buffer == old(self).buffer,
    {
        let doc = match w.into_document(&self.stemmer) {
            Ok(d) => d,
            Err(()) => {
                return Err(());
            },
        };
        self.buffer.push(doc);
        proof {
            assert(final(self).spec_buffered() =~= old(self).spec_buffered().push(
                final(self).buffer@.last()@,
            ));
        }
        Ok(())
    }

    /// Registers a deletion of every document inserted strictly before
    /// the cutoff; readers see it only from the next commit on.
    pub fn delete_all_before(&mut self, cutoff: u64)
        requires
            old(self).writer_prepared,
        ensures
            final(self).inv() == old(self).inv(),
            final(self).writer_prepared,
            final(self).segments == old(self).segments,
            final(self).buffer == old(self).buffer,
            final(self).tombstones@ == old(self).tombstones@.push(
                Tombstone::InsertedBefore(cutoff),
            ),
    {
        self.tombstones.push(Tombstone::InsertedBefore(cutoff));
    }

    /// Commits: applies the tombstones to every committed segment and
    /// to the buffer, and makes the surviving buffered documents
    /// visible as one new segment. Readers switch atomically: they see
    /// all of the commit or none of it.
    pub fn commit(&mut self)
        requires
            old(self).inv(),
            old(self).next_segment_id < u64::MAX,
        ensures
            final(self).inv(),
            final(self).writer_prepared == old(self).writer_prepared,
            final(self).tombstones@.len() == 0,
            final(self).spec_buffered().len() == 0,
            final(self).spec_live_docs() =~= spec_survivors(
                old(self).spec_live_docs(),
                old(self).tombstones@,
            ) + spec_survivors(old(self).spec_buffered(), old(self).tombstones@),
    {
        let ghost old_live = self.spec_live_docs();
        let ghost old_buf = self.spec_buffered();
        let ghost ts = self.tombstones@;
        let mut kept_segments: Vec<Segment> = Vec::new();
        let mut segs: Vec<Segment> = Vec::new();
        core::mem::swap(&mut segs, &mut self.segments);
        let ghost gsegs = segs@;
        proof {
            lemma_all_docs_survivors_concat(gsegs, ts);
        }
        let total: usize = segs.len();
        let mut si: usize = 0;
        while segs.len() > 0
            invariant
                self.inv(),
                total == gsegs.len(),
                si + segs@.len() == gsegs.len(),
                si <= total,
                segs@ =~= gsegs.subrange(si as int, gsegs.len() as int),
                all_docs(kept_segments@) =~= survivors_concat(gsegs.take(si as int), self.tombstones@),
                self.tombstones@ == ts,
            decreases segs@.len(),
        {
            let ghost pre_segs = segs@;
            let seg = segs.remove(0);
            proof {
                assert(seg == gsegs[si as int]);
                assert forall|m: int| 0 <= m < segs@.len() implies segs@[m] == gsegs[si + 1
                    + m] by {
                    assert(segs@[m] == pre_segs[m + 1]);
                    assert(pre_segs[m + 1] == gsegs.subrange(si as int, gsegs.len() as int)[m + 1]);
                }
                assert(segs@ =~= gsegs.subrange(si + 1, gsegs.len() as int));
            }
            let filtered = self.filter_docs(seg.docs);
            let ghost pre_kept = kept_segments@;
            kept_segments.push(Segment { id: seg.id, docs: filtered });
            proof {
                assert(kept_segments@.drop_last() =~= pre_kept);
                assert(seg_docs(kept_segments@.last()) =~= spec_survivors(
                    seg_docs(gsegs[si as int]),
                    ts,
                ));
                assert(gsegs.take(si + 1).drop_last() =~= gsegs.take(si as int));
                assert(gsegs.take(si + 1).last() == gsegs[si as int]);
                assert(all_docs(kept_segments@) =~= survivors_concat(gsegs.take(si + 1), ts));
            }
            si = si + 1;
        }
        proof {
            assert(gsegs.take(gsegs.len() as int) =~= gsegs);
        }
        let mut buf: Vec<Document> = Vec::new();
        core::mem::swap(&mut buf, &mut self.buffer);
        let new_docs = self.filter_docs(buf);
        if new_docs.len() > 0 {
            let ghost pre_kept = kept_segments@;
            kept_segments.push(Segment { id: self.next_segment_id, docs: new_docs });
            self.next_segment_id = self.next_segment_id + 1;
            proof {
                assert(kept_segments@.drop_last() =~= pre_kept);
                assert(all_docs(kept_segments@) =~= survivors_concat(gsegs, ts) + spec_survivors(
                    old_buf,
                    ts,
                ));
            }
        } else {
            proof {
                assert(spec_survivors(old_buf, ts) =~= Seq::<DocModel>::empty()) by {
                    lemma_survivors_len(old_buf, ts);
                }
                assert(all_docs(kept_segments@) =~= survivors_concat(gsegs, ts) + spec_survivors(
                    old_buf,
                    ts,
                ));
            }
        }
        self.segments = kept_segments;
        self.tombstones = Vec::new();
        proof {
            lemma_all_docs_survivors_concat(gsegs, ts);
        }
    }

    /// Keeps the documents no tombstone takes, in order.
    fn filter_docs(&self, docs: Vec<Document>) -> (r: Vec<Document>)
        ensures
            docs_view(r) =~= spec_survivors(docs_view(docs), self.tombstones@),
            r@.len() <= docs@.len(),
    {
        let ghost gdocs = docs_view(docs);
        let mut out: Vec<Document> = Vec::new();
        let mut docs = docs;
        let ghost mut i: int = 0;
        while docs.len() > 0
            invariant
                0 <= i <= gdocs.len(),
                i + docs@.len() == gdocs.len(),
                docs_view(docs) =~= gdocs.subrange(i, gdocs.len() as int),
                docs_view(out) =~= spec_survivors(gdocs.take(i), self.tombstones@),
                out@.len() <= i,
            decreases docs@.len(),
        {
            let ghost pre = docs@;
            let ghost pre_view = docs_view(docs);
            let d = docs.remove(0);
            proof {
                assert(pre_view[0] == pre[0]@);
                assert(d@ == gdocs[i]);
                assert forall|m: int|
                    0 <= m < docs@.len() implies docs_view(docs)[m] == #[trigger] gdocs.subrange(
                    i + 1,
                    gdocs.len() as int,
                )[m] by {
                    assert(docs@[m] == pre[m + 1]);
                    assert(docs_view(docs)[m] == docs@[m]@);
                    assert(pre_view[m + 1] == pre[m + 1]@);
                    assert(pre_view[m + 1] == gdocs.subrange(i, gdocs.len() as int)[m + 1]);
                    assert(gdocs.subrange(i + 1, gdocs.len() as int)[m] == gdocs[i + 1 + m]);
                }
                assert(docs_view(docs) =~= gdocs.subrange(i + 1, gdocs.len() as int));
                assert(gdocs.take(i + 1).drop_last() =~= gdocs.take(i));
                assert(gdocs.take(i + 1).last() == gdocs[i]);
            }
            let ghost pre_out = docs_view(out);
            let dead = self.doc_deleted(&d);
            if !dead {
                out.push(d);
                proof {
                    assert(docs_view(out) =~= pre_out.push(gdocs[i]));
                }
            }
            proof {
                assert(docs_view(out) =~= spec_survivors(gdocs.take(i + 1), self.tombstones@));
                i = i + 1;
            }
        }
        proof {
            assert(gdocs.take(gdocs.len() as int) =~= gdocs);
        }
        out
    }

    /// Whether some registered tombstone takes the document.
    fn doc_deleted(&self, d: &Document) -> (r: bool)
        ensures
            r == spec_deleted(self.tombstones@, d@),
    {
        let mut i: usize = 0;
        while i < self.tombstones.len()
            invariant
                i <= self.tombstones@.len(),
                forall|k: int|
                    0 <= k < i ==> !spec_tombstone_takes(#[trigger] self.tombstones@[k], d@),
            decreases self.tombstones@.len() - i,
        {
            let takes = match self.tombstones[i] {
                Tombstone::InsertedBefore(cutoff) => d.insertion_timestamp < cutoff,
            };
            if takes {
                proof {
                    assert(spec_tombstone_takes(self.tombstones@[i as int], d@));
                }
                return true;
            }
            i = i + 1;
        }
        false
    }
}

impl InvertedIndex {
    /// Merges another store into this one: the other's segments join
    /// this store's, renumbered so that segment ids stay unique within
    /// the result, and the combined list is sorted by document count,
    /// largest first. In-memory stores all number their segments from
    /// zero, so an id shared across stores never means a shared
    /// segment, and none is deduplicated. The caller is expected to
    /// have committed both sides first; both buffers and any pending
    /// tombstones are dropped.
    pub fn merge(self, other: InvertedIndex) -> (r: InvertedIndex)
        requires
            self.inv(),
            self.next_segment_id + other.segments@.len() <= u64::MAX,
        ensures
            r.inv(),
            r.spec_live_docs().to_multiset() == (self.spec_live_docs() + all_docs(
                other.segments@,
            )).to_multiset(),
            r.spec_buffered().len() == 0,
            r.tombstones@.len() == 0,
            forall|i: int, j: int|
                0 <= i < j < r.segments@.len() ==> (#[trigger] r.segments@[i]).docs@.len() >= (
                #[trigger] r.segments@[j]).docs@.len(),
    {
        let mut merged = self;
        merged.buffer = Vec::new();
        merged.tombstones = Vec::new();
        let mut incoming = other.segments;
        let ghost gin = incoming@;
        let ghost base = merged.segments@;
        let ghost mut j: int = 0;
        proof {
            assert(gin.take(0) =~= Seq::<Segment>::empty());
            assert(all_docs(gin.take(0)) =~= Seq::<DocModel>::empty());
            assert(all_docs(merged.segments@) =~= all_docs(base) + all_docs(gin.take(0)));
        }
        while incoming.len() > 0
            invariant
                merged.inv(),
                0 <= j <= gin.len(),
                j + incoming@.len() == gin.len(),
                merged.next_segment_id + incoming@.len() <= u64::MAX,
                merged.buffer@.len() == 0,
                merged.tombstones@.len() == 0,
                incoming@ =~= gin.subrange(j, gin.len() as int),
                all_docs(merged.segments@) =~= all_docs(base) + all_docs(gin.take(j)),
            decreases incoming@.len(),
        {
            let ghost pre_in = incoming@;
            let seg = incoming.remove(0);
            proof {
                assert(seg == gin[j]);
                assert(incoming@ =~= gin.subrange(j + 1, gin.len() as int));
                assert(gin.take(j + 1).drop_last() =~= gin.take(j));
                assert(gin.take(j + 1).last() == gin[j]);
            }
            let ghost pre = merged.segments@;
            let fresh_id = merged.next_segment_id;
            merged.next_segment_id = merged.next_segment_id + 1;
            merged.segments.push(Segment { id: fresh_id, docs: seg.docs });
            proof {
                assert(merged.segments@.drop_last() =~= pre);
                assert(seg_docs(merged.segments@.last()) =~= seg_docs(gin[j]));
                assert(all_docs(merged.segments@) =~= all_docs(pre) + seg_docs(gin[j]));
                assert(all_docs(gin.take(j + 1)) =~= all_docs(gin.take(j)) + seg_docs(gin[j]));
                assert(all_docs(merged.segments@) =~= all_docs(base) + all_docs(gin.take(j + 1)));
                j = j + 1;
            }
        }
        proof {
            assert(gin.take(gin.len() as int) =~= gin);
            assert(all_docs(merged.segments@) =~= all_docs(base) + all_docs(gin));
        }
        let ghost combined = merged.segments@;
        let joined = merged.segments;
        merged.segments = sort_segments_desc(joined);
        proof {
            assert(all_docs(merged.segments@).to_multiset() == all_docs(combined).to_multiset());
        }
        merged
    }

    /// Merges the committed segments down to at most `k`: where more
    /// stand, they are sorted by document count, largest first, and
    /// each is placed into a currently-smallest of `k / 2 + 1` bins
    /// (half of `k + 1`, rounded up). Every bin holding several
    /// segments becomes one new segment; one holding a single segment
    /// keeps it as it is. The live documents are kept exactly as a
    /// multiset, so any query's hits are the same before and after
    /// the merge.
    pub fn merge_into_max_segments(&mut self, k: u64)
        requires
            old(self).inv(),
            k > 0,
            old(self).next_segment_id + old(self).segments@.len() <= u64::MAX,
        ensures
            final(self).inv(),
            final(self).spec_live_docs().to_multiset() =~= old(
                self,
            ).spec_live_docs().to_multiset(),
            final(self).buffer == old(self).buffer,
            final(self).tombstones == old(self).tombstones,
            final(self).writer_prepared == old(self).writer_prepared,
            old(self).segments@.len() <= k ==> final(self).segments == old(self).segments,
            old(self).segments@.len() > k ==> final(self).segments@.len() as u64 <= k / 2 + 1,
            old(self).segments@.len() > k ==> spec_lpt_result(
                old(self).segments@,
                final(self).segments@,
                k,
            ),
    {
        broadcast use vstd::multiset::group_multiset_axioms;

        let n = self.segments.len();
        if n as u64 <= k {
            return ;
        }
        proof {
            assert(k < usize::MAX as u64);
            assert(k as int / 2 + 1 <= k as int) by (nonlinear_arith)
                requires
                    k >= 1,
            {}
        }
        let bins_n: usize = (k / 2 + 1) as usize;
        let ghost gsegs = old(self).segments@;
        let ghost total = all_docs(gsegs).to_multiset();
        let mut rest: Vec<Segment> = Vec::new();
        core::mem::swap(&mut rest, &mut self.segments);
        // sort the segments by document count, largest first
        let sorted = sort_segments_desc(rest);
        proof {
            assert(sorted@ == spec_sort_desc(gsegs));
        }
        // place each segment, largest first, into a currently-smallest bin
        let mut bins: Vec<Vec<Segment>> = Vec::new();
        let mut sizes: Vec<usize> = Vec::new();
        let mut bi: usize = 0;
        while bi < bins_n
            invariant
                bins@.len() == bi,
                sizes@.len() == bi,
                bi <= bins_n,
                forall|j: int| 0 <= j < bi ==> (#[trigger] bins@[j])@.len() == 0,
                forall|j: int| 0 <= j < bi ==> sizes@[j] == 0,
            decreases bins_n - bi,
        {
            bins.push(Vec::new());
            sizes.push(0);
            bi = bi + 1;
        }
        let ghost gpacked = spec_packed_bins(gsegs, bins_n as int);
        proof {
            lemma_bins_ms_empty(bins@, bins_n as int);
            assert(bins_ms(bins@, bins_n as int).add(all_docs(sorted@).to_multiset()) =~= total);
            assert forall|j: int| 0 <= j < bins_n implies #[trigger] bins_view(bins@)[j]
                == Seq::new(bins_n as nat, |i: int| Seq::<Segment>::empty())[j] by {
                assert(bins_view(bins@)[j] == bins@[j]@);
                assert(bins@[j]@ =~= Seq::<Segment>::empty());
            }
            assert(bins_view(bins@) =~= Seq::new(bins_n as nat, |i: int| Seq::<Segment>::empty()));
            assert(sizes_view(sizes@) =~= Seq::new(bins_n as nat, |i: int| 0int));
            assert(spec_place(sorted@, bins_view(bins@), sizes_view(sizes@)) == gpacked);
        }
        let mut sorted = sorted;
        while sorted.len() > 0
            invariant
                self.inv(),
                bins_n >= 1,
                bins@.len() == bins_n,
                sizes@.len() == bins_n,
                bins_ms(bins@, bins_n as int).add(all_docs(sorted@).to_multiset()) =~= total,
                spec_place(sorted@, bins_view(bins@), sizes_view(sizes@)) == gpacked,
                self.buffer == old(self).buffer,
                self.tombstones == old(self).tombstones,
                self.writer_prepared == old(self).writer_prepared,
                self.next_segment_id == old(self).next_segment_id,
            decreases sorted@.len(),
        {
            let ghost gsz = sizes_view(sizes@);
            let mut m: usize = 0;
            let mut t: usize = 1;
            while t < bins_n
                invariant
                    m < bins_n,
                    1 <= t <= bins_n,
                    sizes@.len() == bins_n,
                    gsz == sizes_view(sizes@),
                    spec_smallest_from(gsz, t as int, m as int) == spec_smallest(gsz),
                decreases bins_n - t,
            {
                proof {
                    assert(gsz[t as int] == sizes@[t as int] as int);
                    assert(gsz[m as int] == sizes@[m as int] as int);
                    if gsz[t as int] < gsz[m as int] {
                        assert(spec_smallest_from(gsz, t as int, m as int) == spec_smallest_from(
                            gsz,
                            t + 1,
                            t as int,
                        ));
                    } else {
                        assert(spec_smallest_from(gsz, t as int, m as int) == spec_smallest_from(
                            gsz,
                            t + 1,
                            m as int,
                        ));
                    }
                }
                if sizes[t] < sizes[m] {
                    m = t;
                }
                t = t + 1;
            }
            proof {
                assert(spec_smallest_from(gsz, t as int, m as int) == m as int);
                assert(spec_smallest(gsz) == m as int);
            }
            let ghost pre_sorted = sorted@;
            let seg = sorted.remove(0);
            let ghost gseg = seg;
            let grown = if sizes[m] <= usize::MAX - seg.docs.len() {
                sizes[m] + seg.docs.len()
            } else {
                usize::MAX
            };
            sizes.set(m, grown);
            let ghost pre_bins = bins@;
            let mut bin = bins.remove(m);
            bin.push(seg);
            bins.insert(m, bin);
            proof {
                assert(pre_sorted[0] == gseg);
                lemma_all_docs_ms_remove(pre_sorted, 0);
                assert(all_docs(sorted@) =~= all_docs(pre_sorted.remove(0)));
                assert(bins@ =~= pre_bins.update(m as int, bins@[m as int]));
                assert(bins@[m as int]@ =~= pre_bins[m as int]@.push(gseg));
                lemma_bins_ms_update(pre_bins, bins@, m as int, bins_n as int, gseg);
                assert(bins_ms(bins@, bins_n as int).add(all_docs(sorted@).to_multiset())
                    =~= total);
                let grown_spec = if gsz[m as int] + gseg.docs@.len() > usize::MAX as int {
                    usize::MAX as int
                } else {
                    gsz[m as int] + gseg.docs@.len()
                };
                assert(grown as int == grown_spec);
                assert(sizes_view(sizes@) =~= gsz.update(m as int, grown_spec));
                assert forall|j: int| 0 <= j < bins_n implies #[trigger] bins_view(bins@)[j]
                    == bins_view(pre_bins).update(
                    m as int,
                    bins_view(pre_bins)[m as int].push(gseg),
                )[j] by {
                    assert(bins_view(bins@)[j] == bins@[j]@);
                    assert(bins_view(pre_bins)[j] == pre_bins[j]@);
                }
                assert(bins_view(bins@) =~= bins_view(pre_bins).update(
                    m as int,
                    bins_view(pre_bins)[m as int].push(gseg),
                ));
                assert(sorted@ =~= pre_sorted.remove(0));
                assert(spec_place(pre_sorted, bins_view(pre_bins), gsz) == spec_place(
                    sorted@,
                    bins_view(bins@),
                    sizes_view(sizes@),
                ));
            }
        }
        proof {
            assert(spec_place(sorted@, bins_view(bins@), sizes_view(sizes@)) == bins_view(bins@));
            assert(bins_view(bins@) == gpacked);
            assert(gpacked.len() == bins_n);
        }
        // each bin with several segments merges into one new segment;
        // a bin with a single segment keeps it; an empty bin is dropped
        let mut out: Vec<Segment> = Vec::new();
        let ghost mut bi2: int = 0;
        proof {
            assert(gpacked.take(0) =~= Seq::<Seq<Segment>>::empty());
            assert(gpacked.subrange(0, gpacked.len() as int) =~= gpacked);
            assert(bins_n as u64 <= k);
            assert(self.next_segment_id + bins@.len() <= u64::MAX);
        }
        while bins.len() > 0
            invariant
                self.inv(),
                0 <= bi2 <= gpacked.len(),
                bi2 + bins@.len() == gpacked.len(),
                gpacked.len() == bins_n,
                bins_view(bins@) =~= gpacked.subrange(bi2, gpacked.len() as int),
                out@.len() == spec_nonempty_bins(gpacked.take(bi2)).len(),
                forall|j: int|
                    0 <= j < out@.len() ==> seg_docs(#[trigger] out@[j]) == all_docs(
                        spec_nonempty_bins(gpacked.take(bi2))[j],
                    ),
                forall|j: int|
                    0 <= j < out@.len() && spec_nonempty_bins(gpacked.take(bi2))[j].len() == 1
                        ==> #[trigger] out@[j] == spec_nonempty_bins(gpacked.take(bi2))[j][0],
                all_docs(out@).to_multiset().add(bins_ms(bins@, bins@.len() as int)) =~= total,
                self.next_segment_id + bins@.len() <= u64::MAX,
                out@.len() + bins@.len() <= bins_n,
                self.buffer == old(self).buffer,
                self.tombstones == old(self).tombstones,
                self.writer_prepared == old(self).writer_prepared,
            decreases bins@.len(),
        {
            let ghost pre_bins = bins@;
            let ghost pre_out = out@;
            let mut bin = bins.remove(0);
            let ghost gbin = bin@;
            proof {
                broadcast use vstd::multiset::group_multiset_axioms;

                assert(bins_view(pre_bins)[0] == pre_bins[0]@);
                assert(gbin == gpacked[bi2]);
                lemma_bins_ms_drop_first(pre_bins, pre_bins.len() as int);
                assert forall|j: int|
                    0 <= j < bins@.len() implies #[trigger] bins_view(bins@)[j]
                    == gpacked.subrange(bi2 + 1, gpacked.len() as int)[j] by {
                    assert(bins@[j] == pre_bins[j + 1]);
                    assert(bins_view(bins@)[j] == bins@[j]@);
                    assert(bins_view(pre_bins)[j + 1] == pre_bins[j + 1]@);
                }
                assert(bins_view(bins@) =~= gpacked.subrange(bi2 + 1, gpacked.len() as int));
                assert(gpacked.take(bi2 + 1).drop_last() =~= gpacked.take(bi2));
                assert(gpacked.take(bi2 + 1).last() == gpacked[bi2]);
            }
            if bin.len() == 0 {
                proof {
                    broadcast use vstd::multiset::group_multiset_axioms;

                    assert(all_docs(gbin) =~= Seq::<DocModel>::empty());
                    lemma_empty_seq_ms();
                    assert(all_docs(out@).to_multiset().add(bins_ms(bins@, bins@.len() as int))
                        =~= total);
                    assert(spec_nonempty_bins(gpacked.take(bi2 + 1)) == spec_nonempty_bins(
                        gpacked.take(bi2),
                    ));
                    bi2 = bi2 + 1;
                }
            } else if bin.len() == 1 {
                let seg = bin.remove(0);
                out.push(seg);
                proof {
                    broadcast use vstd::multiset::group_multiset_axioms;

                    assert(seg == gbin[0]);
                    assert(gbin =~= seq![gbin[0]]);
                    lemma_all_docs_single(gbin[0]);
                    assert(all_docs(gbin) =~= seg_docs(gbin[0]));
                    lemma_all_docs_ms_push(pre_out, seg);
                    assert(out@ =~= pre_out.push(seg));
                    assert(all_docs(out@).to_multiset().add(bins_ms(bins@, bins@.len() as int))
                        =~= total);
                    let kept2 = spec_nonempty_bins(gpacked.take(bi2 + 1));
                    assert(kept2 == spec_nonempty_bins(gpacked.take(bi2)).push(gbin));
                    assert forall|j: int|
                        0 <= j < out@.len() implies seg_docs(#[trigger] out@[j]) == all_docs(
                        kept2[j],
                    ) by {
                        if j < pre_out.len() {
                            assert(out@[j] == pre_out[j]);
                            assert(kept2[j] == spec_nonempty_bins(gpacked.take(bi2))[j]);
                        } else {
                            assert(out@[j] == seg);
                            assert(kept2[j] == gbin);
                        }
                    }
                    assert forall|j: int|
                        0 <= j < out@.len() && kept2[j].len() == 1 implies #[trigger] out@[j]
                        == kept2[j][0] by {
                        if j < pre_out.len() {
                            assert(out@[j] == pre_out[j]);
                            assert(kept2[j] == spec_nonempty_bins(gpacked.take(bi2))[j]);
                        } else {
                            assert(out@[j] == seg);
                            assert(kept2[j] == gbin);
                            assert(gbin[0] == seg);
                        }
                    }
                    bi2 = bi2 + 1;
                }
            } else {
                let mut docs: Vec<Document> = Vec::new();
                let ghost mut bj: int = 0;
                proof {
                    assert(gbin.take(0) =~= Seq::<Segment>::empty());
                    assert(all_docs(gbin.take(0)) =~= Seq::<DocModel>::empty());
                    assert(docs_view(docs) =~= all_docs(gbin.take(0)));
                }
                while bin.len() > 0
                    invariant
                        0 <= bj <= gbin.len(),
                        bj + bin@.len() == gbin.len(),
                        bin@ =~= gbin.subrange(bj, gbin.len() as int),
                        docs_view(docs) =~= all_docs(gbin.take(bj)),
                    decreases bin@.len(),
                {
                    let sg = bin.remove(0);
                    proof {
                        assert(sg == gbin[bj]);
                        assert(bin@ =~= gbin.subrange(bj + 1, gbin.len() as int));
                        assert(gbin.take(bj + 1).drop_last() =~= gbin.take(bj));
                        assert(gbin.take(bj + 1).last() == gbin[bj]);
                    }
                    let mut dd = sg.docs;
                    let ghost pre_docs = docs_view(docs);
                    docs.append(&mut dd);
                    proof {
                        assert forall|q: int| 0 <= q < docs@.len() implies docs_view(docs)[q] == (
                        pre_docs + seg_docs(gbin[bj]))[q] by {
                            assert(docs_view(docs)[q] == docs@[q]@);
                        }
                        assert(docs_view(docs) =~= pre_docs + seg_docs(gbin[bj]));
                        assert(docs_view(docs) =~= all_docs(gbin.take(bj + 1)));
                        bj = bj + 1;
                    }
                }
                out.push(Segment { id: self.next_segment_id, docs });
                self.next_segment_id = self.next_segment_id + 1;
                proof {
                    broadcast use vstd::multiset::group_multiset_axioms;

                    assert(gbin.take(gbin.len() as int) =~= gbin);
                    lemma_all_docs_ms_push(pre_out, out@.last());
                    assert(seg_docs(out@.last()) =~= all_docs(gbin));
                    assert(out@ =~= pre_out.push(out@.last()));
                    assert(all_docs(out@).to_multiset() =~= all_docs(pre_out).to_multiset().add(
                        all_docs(gbin).to_multiset(),
                    ));
                    assert(all_docs(out@).to_multiset().add(bins_ms(bins@, bins@.len() as int))
                        =~= total);
                    let kept2 = spec_nonempty_bins(gpacked.take(bi2 + 1));
                    assert(kept2 == spec_nonempty_bins(gpacked.take(bi2)).push(gbin));
                    assert forall|j: int|
                        0 <= j < out@.len() implies seg_docs(#[trigger] out@[j]) == all_docs(
                        kept2[j],
                    ) by {
                        if j < pre_out.len() {
                            assert(out@[j] == pre_out[j]);
                            assert(kept2[j] == spec_nonempty_bins(gpacked.take(bi2))[j]);
                        } else {
                            assert(out@[j] == out@.last());
                            assert(kept2[j] == gbin);
                        }
                    }
                    assert forall|j: int|
                        0 <= j < out@.len() && kept2[j].len() == 1 implies #[trigger] out@[j]
                        == kept2[j][0] by {
                        if j < pre_out.len() {
                            assert(out@[j] == pre_out[j]);
                            assert(kept2[j] == spec_nonempty_bins(gpacked.take(bi2))[j]);
                        } else {
                            assert(kept2[j] == gbin);
                            assert(gbin.len() > 1);
                        }
                    }
                    bi2 = bi2 + 1;
                }
            }
        }
        proof {
            broadcast use vstd::multiset::group_multiset_axioms;

            assert(bins@.len() == 0);
            assert(bi2 == gpacked.len());
            assert(gpacked.take(gpacked.len() as int) =~= gpacked);
            assert(bins_ms(bins@, 0) =~= vstd::multiset::Multiset::<DocModel>::empty());
            assert(all_docs(out@).to_multiset() =~= total);
        }
        self.segments = out;
        proof {
            assert(bins_n as int == k as int / 2 + 1);
            assert(spec_lpt_result(gsegs, self.segments@, k));
        }
    }
}

/// Copies the documents of a segment.
fn copy_docs(docs: &Vec<Document>) -> (r: Vec<Document>)
    ensures
        docs_view(r) =~= docs_view(*docs),
{
    let mut out: Vec<Document> = Vec::new();
    let mut i: usize = 0;
    while i < docs.len()
        invariant
            i <= docs@.len(),
            out@.len() == i,
            forall|q: int| 0 <= q < i ==> (#[trigger] out@[q])@ == docs@[q]@,
        decreases docs@.len() - i,
    {
        let d = copy_document(&docs[i]);
        out.push(d);
        i = i + 1;
    }
    proof {
        assert forall|q: int|
            0 <= q < docs@.len() implies docs_view(out)[q] == #[trigger] docs_view(*docs)[q] by {
            assert(docs_view(out)[q] == out@[q]@);
            assert(docs_view(*docs)[q] == docs@[q]@);
        }
        assert(docs_view(out) =~= docs_view(*docs));
    }
    out
}

/// Copies one document field by field.
fn copy_document(d: &Document) -> (r: Document)
    ensures
        r@ == d@,
{
    let r = Document {
        title_tokens: crate::query::clone_toks(&d.title_tokens),
        body_tokens: crate::query::clone_toks(&d.body_tokens),
        stemmed_body_tokens: crate::query::clone_toks(&d.stemmed_body_tokens),
        all_body_tokens: crate::query::clone_toks(&d.all_body_tokens),
        url_tokens: crate::query::clone_toks(&d.url_tokens),
        site_url_tokens: crate::query::clone_toks(&d.site_url_tokens),
        site_tokens: crate::query::clone_toks(&d.site_tokens),
        domain_tokens: crate::query::clone_toks(&d.domain_tokens),
        description_tokens: crate::query::clone_toks(&d.description_tokens),
        dmoz_description_tokens: crate::query::clone_toks(&d.dmoz_description_tokens),
        microformat_tokens: crate::query::clone_toks(&d.microformat_tokens),
        schema_tokens: crate::query::clone_toks(&d.schema_tokens),
        url_exact: d.url_exact.clone(),
        site_if_homepage: d.site_if_homepage.clone(),
        title: d.title.clone(),
        clean_body: d.clean_body.clone(),
        all_body: d.all_body.clone(),
        description: d.description.clone(),
        dmoz_description: d.dmoz_description.clone(),
        schema_org_json: d.schema_org_json.clone(),
        keywords: d.keywords.clone(),
        recipe_first_ingredient_tag_id: d.recipe_first_ingredient_tag_id.clone(),
        safety_classification: d.safety_classification,
        insertion_timestamp: d.insertion_timestamp,
        pre_computed_score: d.pre_computed_score,
        host_centrality: d.host_centrality,
        page_centrality: d.page_centrality,
        fetch_time_ms: d.fetch_time_ms,
        region: d.region,
        last_updated: d.last_updated,
        host_node_id: d.host_node_id,
        likely_has_ads: d.likely_has_ads,
        likely_has_paywall: d.likely_has_paywall,
    };
    proof {
        assert(r@ == d@);
    }
    r
}

/// A single segment's run of documents.
proof fn lemma_all_docs_single(x: Segment)
    ensures
        all_docs(seq![x]) =~= seg_docs(x),
{
    assert(seq![x].drop_last() =~= Seq::<Segment>::empty());
    assert(all_docs(seq![x].drop_last()) =~= Seq::<DocModel>::empty());
    assert(all_docs(Seq::<Segment>::empty()) =~= Seq::<DocModel>::empty());
    assert(seq![x].last() == x);
    assert(all_docs(seq![x]) =~= all_docs(seq![x].drop_last()) + seg_docs(x));
}

/// Appending one segment appends its documents.
proof fn lemma_all_docs_push(segs: Seq<Segment>, x: Segment)
    ensures
        all_docs(segs.push(x)) =~= all_docs(segs) + seg_docs(x),
{
    assert(segs.push(x).drop_last() =~= segs);
}

/// Taking one segment out takes exactly its documents out of the
/// store's multiset.
proof fn lemma_all_docs_ms_remove(segs: Seq<Segment>, i: int)
    requires
        0 <= i < segs.len(),
    ensures
        all_docs(segs).to_multiset() =~= all_docs(segs.remove(i)).to_multiset().add(
            seg_docs(segs[i]).to_multiset(),
        ),
{
    broadcast use vstd::multiset::group_multiset_axioms;

    let left = segs.subrange(0, i);
    let right = segs.subrange(i + 1, segs.len() as int);
    assert(segs =~= (left + seq![segs[i]]) + right);
    lemma_all_docs_concat(left + seq![segs[i]], right);
    lemma_all_docs_concat(left, seq![segs[i]]);
    lemma_all_docs_single(segs[i]);
    assert(segs.remove(i) =~= left + right);
    lemma_all_docs_concat(left, right);
    vstd::seq_lib::lemma_multiset_commutative(
        all_docs(left + seq![segs[i]]),
        all_docs(right),
    );
    vstd::seq_lib::lemma_multiset_commutative(all_docs(left), seg_docs(segs[i]));
    vstd::seq_lib::lemma_multiset_commutative(all_docs(left), all_docs(right));
}

/// Appending one segment adds exactly its documents to the store's
/// multiset.
proof fn lemma_all_docs_ms_push(segs: Seq<Segment>, x: Segment)
    ensures
        all_docs(segs.push(x)).to_multiset() =~= all_docs(segs).to_multiset().add(
            seg_docs(x).to_multiset(),
        ),
{
    broadcast use vstd::multiset::group_multiset_axioms;

    lemma_all_docs_push(segs, x);
    vstd::seq_lib::lemma_multiset_commutative(all_docs(segs), seg_docs(x));
}

/// The document multiset of the first `n` bins.
pub open spec fn bins_ms(bs: Seq<Vec<Segment>>, n: int) -> vstd::multiset::Multiset<DocModel>
    decreases n,
{
    if n <= 0 {
        vstd::multiset::Multiset::empty()
    } else {
        bins_ms(bs, n - 1).add(all_docs(bs[n - 1]@).to_multiset())
    }
}

/// Empty bins fold to the empty multiset.
proof fn lemma_bins_ms_empty(bs: Seq<Vec<Segment>>, n: int)
    requires
        forall|j: int| 0 <= j < n ==> (#[trigger] bs[j])@.len() == 0,
        n <= bs.len(),
    ensures
        bins_ms(bs, n) =~= vstd::multiset::Multiset::empty(),
    decreases n,
{
    broadcast use vstd::multiset::group_multiset_axioms;
    broadcast use vstd::seq_lib::group_to_multiset_ensures;

    if n > 0 {
        lemma_bins_ms_empty(bs, n - 1);
        assert(bs[n - 1]@ =~= Seq::<Segment>::empty());
        assert(all_docs(bs[n - 1]@) =~= Seq::<DocModel>::empty());
        lemma_empty_seq_ms();
    }
}

/// An empty document run is the empty multiset.
proof fn lemma_empty_seq_ms()
    ensures
        Seq::<DocModel>::empty().to_multiset() =~= vstd::multiset::Multiset::<DocModel>::empty(),
{
    broadcast use vstd::multiset::group_multiset_axioms;
    broadcast use vstd::seq_lib::group_to_multiset_ensures;

    assert(Seq::<DocModel>::empty().to_multiset().len() == 0);
}

/// A bin fold reads only the bins before `n`.
proof fn lemma_bins_ms_stable(b1: Seq<Vec<Segment>>, b2: Seq<Vec<Segment>>, n: int)
    requires
        0 <= n,
        forall|k: int| 0 <= k < n ==> b1[k] == #[trigger] b2[k],
    ensures
        bins_ms(b1, n) == bins_ms(b2, n),
    decreases n,
{
    if n > 0 {
        lemma_bins_ms_stable(b1, b2, n - 1);
    }
}

/// Growing one bin by a segment adds exactly its documents to the
/// fold.
proof fn lemma_bins_ms_update(
    b1: Seq<Vec<Segment>>,
    b2: Seq<Vec<Segment>>,
    m: int,
    n: int,
    x: Segment,
)
    requires
        0 <= m < n <= b1.len(),
        b1.len() == b2.len(),
        forall|k: int| 0 <= k < b1.len() && k != m ==> b1[k] == #[trigger] b2[k],
        b2[m]@ =~= b1[m]@.push(x),
    ensures
        bins_ms(b2, n) =~= bins_ms(b1, n).add(seg_docs(x).to_multiset()),
    decreases n,
{
    broadcast use vstd::multiset::group_multiset_axioms;

    if m == n - 1 {
        lemma_bins_ms_stable(b1, b2, n - 1);
        lemma_all_docs_ms_push(b1[m]@, x);
        assert(all_docs(b2[m]@) =~= all_docs(b1[m]@.push(x)));
    } else {
        lemma_bins_ms_update(b1, b2, m, n - 1, x);
        assert(b1[n - 1] == b2[n - 1]);
    }
}

/// Concatenating segment runs concatenates their documents.
proof fn lemma_all_docs_concat(a: Seq<Segment>, b: Seq<Segment>)
    ensures
        all_docs(a + b) =~= all_docs(a) + all_docs(b),
    decreases b.len(),
{
    if b.len() == 0 {
        assert(a + b =~= a);
        assert(all_docs(b) =~= Seq::<DocModel>::empty());
    } else {
        lemma_all_docs_concat(a, b.drop_last());
        assert((a + b).drop_last() =~= a + b.drop_last());
        assert((a + b).last() == b.last());
    }
}

/// The index a left-to-right scan from `t` ends on, keeping `best`
/// and moving only for a strictly larger document count.
pub open spec fn spec_largest_from(s: Seq<Segment>, t: int, best: int) -> int
    decreases s.len() - t,
{
    if t < 0 || t >= s.len() {
        best
    } else if s[t].docs@.len() > s[best].docs@.len() {
        spec_largest_from(s, t + 1, t)
    } else {
        spec_largest_from(s, t + 1, best)
    }
}

/// The index of the first segment with the largest document count.
pub open spec fn spec_largest(s: Seq<Segment>) -> int {
    spec_largest_from(s, 1, 0)
}

/// The segments sorted by document count, largest first, by repeated
/// selection of the first largest; equal counts keep their order.
pub open spec fn spec_sort_desc(s: Seq<Segment>) -> Seq<Segment>
    decreases s.len(),
{
    if s.len() == 0 {
        Seq::empty()
    } else {
        let b = spec_largest(s);
        if 0 <= b < s.len() {
            seq![s[b]] + spec_sort_desc(s.remove(b))
        } else {
            s
        }
    }
}

/// The index a left-to-right scan from `t` ends on, keeping `m` and
/// moving only for a strictly smaller size.
pub open spec fn spec_smallest_from(sizes: Seq<int>, t: int, m: int) -> int
    decreases sizes.len() - t,
{
    if t < 0 || t >= sizes.len() {
        m
    } else if sizes[t] < sizes[m] {
        spec_smallest_from(sizes, t + 1, t)
    } else {
        spec_smallest_from(sizes, t + 1, m)
    }
}

/// The index of the first smallest bin size.
pub open spec fn spec_smallest(sizes: Seq<int>) -> int {
    spec_smallest_from(sizes, 1, 0)
}

/// The contents of each bin.
pub open spec fn bins_view(bs: Seq<Vec<Segment>>) -> Seq<Seq<Segment>> {
    bs.map_values(|b: Vec<Segment>| b@)
}

/// Each bin's size counter.
pub open spec fn sizes_view(s: Seq<usize>) -> Seq<int> {
    s.map_values(|x: usize| x as int)
}

/// Places each segment, in order, into a currently-smallest bin, the
/// first such; a bin's size counter grows by the documents placed,
/// saturating at the machine's limit.
pub open spec fn spec_place(
    todo: Seq<Segment>,
    bins: Seq<Seq<Segment>>,
    sizes: Seq<int>,
) -> Seq<Seq<Segment>>
    decreases todo.len(),
{
    if todo.len() == 0 {
        bins
    } else {
        let m = spec_smallest(sizes);
        if 0 <= m < bins.len() && bins.len() == sizes.len() {
            let grown = if sizes[m] + todo[0].docs@.len() > usize::MAX as int {
                usize::MAX as int
            } else {
                sizes[m] + todo[0].docs@.len()
            };
            spec_place(
                todo.remove(0),
                bins.update(m, bins[m].push(todo[0])),
                sizes.update(m, grown),
            )
        } else {
            bins
        }
    }
}

/// The packing the segment merge makes: segments sorted largest
/// first, then placed one by one into a currently-smallest of `n`
/// bins.
pub open spec fn spec_packed_bins(segs: Seq<Segment>, n: int) -> Seq<Seq<Segment>> {
    spec_place(
        spec_sort_desc(segs),
        Seq::new(n as nat, |i: int| Seq::<Segment>::empty()),
        Seq::new(n as nat, |i: int| 0int),
    )
}

/// The bins that hold at least one segment, in bin order.
pub open spec fn spec_nonempty_bins(bins: Seq<Seq<Segment>>) -> Seq<Seq<Segment>>
    decreases bins.len(),
{
    if bins.len() == 0 {
        Seq::empty()
    } else {
        let p = spec_nonempty_bins(bins.drop_last());
        if bins.last().len() == 0 {
            p
        } else {
            p.push(bins.last())
        }
    }
}

/// What the segment merge leaves, against what stood before: the
/// segments are sorted by document count, largest first, and packed
/// greedily into `k / 2 + 1` bins; each non-empty bin stands as one
/// segment holding its documents in order, and a bin with a single
/// segment keeps that segment as it was.
pub open spec fn spec_lpt_result(before: Seq<Segment>, after: Seq<Segment>, k: u64) -> bool {
    let kept = spec_nonempty_bins(spec_packed_bins(before, k as int / 2 + 1));
    &&& after.len() == kept.len()
    &&& (forall|j: int|
        0 <= j < kept.len() ==> seg_docs(#[trigger] after[j]) == all_docs(kept[j]))
    &&& (forall|j: int|
        0 <= j < kept.len() && (#[trigger] kept[j]).len() == 1 ==> after[j] == kept[j][0])
}

/// Sorts segments by document count, largest first, by repeated
/// selection of the first largest; equal counts keep their order.
fn sort_segments_desc(v: Vec<Segment>) -> (r: Vec<Segment>)
    ensures
        r@ == spec_sort_desc(v@),
        r@.len() == v@.len(),
        all_docs(r@).to_multiset() == all_docs(v@).to_multiset(),
        forall|x: int, y: int|
            0 <= x < y < r@.len() ==> (#[trigger] r@[x]).docs@.len() >= (
            #[trigger] r@[y]).docs@.len(),
{
    broadcast use vstd::multiset::group_multiset_axioms;

    let ghost target = spec_sort_desc(v@);
    let ghost total = all_docs(v@).to_multiset();
    let mut rest = v;
    let mut sorted: Vec<Segment> = Vec::new();
    proof {
        broadcast use vstd::seq_lib::group_to_multiset_ensures;

        assert(all_docs(sorted@) =~= Seq::<DocModel>::empty());
        lemma_empty_seq_ms();
        assert(sorted@ + spec_sort_desc(rest@) =~= target);
        assert(all_docs(sorted@).to_multiset().add(all_docs(rest@).to_multiset()) =~= total);
    }
    while rest.len() > 0
        invariant
            sorted@ + spec_sort_desc(rest@) =~= target,
            sorted@.len() + rest@.len() == v@.len(),
            all_docs(sorted@).to_multiset().add(all_docs(rest@).to_multiset()) =~= total,
            forall|x: int, y: int|
                0 <= x < y < sorted@.len() ==> (#[trigger] sorted@[x]).docs@.len() >= (
                #[trigger] sorted@[y]).docs@.len(),
            forall|x: int, q: int|
                0 <= x < sorted@.len() && 0 <= q < rest@.len() ==> (
                #[trigger] sorted@[x]).docs@.len() >= (#[trigger] rest@[q]).docs@.len(),
        decreases rest@.len(),
    {
        let mut best: usize = 0;
        let mut t: usize = 1;
        while t < rest.len()
            invariant
                best < rest@.len(),
                1 <= t,
                rest@.len() > 0,
                spec_largest_from(rest@, t as int, best as int) == spec_largest(rest@),
                forall|q: int|
                    0 <= q < t && q < rest@.len() ==> rest@[best as int].docs@.len() >= (
                    #[trigger] rest@[q]).docs@.len(),
            decreases rest@.len() - t,
        {
            proof {
                if rest@[t as int].docs@.len() > rest@[best as int].docs@.len() {
                    assert(spec_largest_from(rest@, t as int, best as int)
                        == spec_largest_from(rest@, t + 1, t as int));
                } else {
                    assert(spec_largest_from(rest@, t as int, best as int)
                        == spec_largest_from(rest@, t + 1, best as int));
                }
            }
            if rest[t].docs.len() > rest[best].docs.len() {
                best = t;
            }
            t = t + 1;
        }
        proof {
            assert(spec_largest_from(rest@, t as int, best as int) == best as int);
            assert(spec_largest(rest@) == best as int);
        }
        let ghost pre_rest = rest@;
        let ghost pre_sorted = sorted@;
        let seg = rest.remove(best);
        sorted.push(seg);
        proof {
            assert(rest@ =~= pre_rest.remove(best as int));
            assert(sorted@ =~= pre_sorted.push(pre_rest[best as int]));
            assert(spec_sort_desc(pre_rest) == seq![pre_rest[best as int]] + spec_sort_desc(
                pre_rest.remove(best as int),
            ));
            assert(sorted@ + spec_sort_desc(rest@) =~= pre_sorted + spec_sort_desc(pre_rest));
            lemma_all_docs_ms_remove(pre_rest, best as int);
            lemma_all_docs_ms_push(pre_sorted, pre_rest[best as int]);
            assert(all_docs(sorted@).to_multiset().add(all_docs(rest@).to_multiset()) =~= total);
            assert forall|x: int, q: int|
                0 <= x < sorted@.len() && 0 <= q < rest@.len() implies (
            #[trigger] sorted@[x]).docs@.len() >= (#[trigger] rest@[q]).docs@.len() by {
                if q < best as int {
                    assert(rest@[q] == pre_rest[q]);
                } else {
                    assert(rest@[q] == pre_rest[q + 1]);
                }
                if x < pre_sorted.len() {
                    assert(sorted@[x] == pre_sorted[x]);
                } else {
                    assert(sorted@[x] == pre_rest[best as int]);
                }
            }
        }
    }
    proof {
        assert(spec_sort_desc(rest@) =~= Seq::<Segment>::empty());
        assert(sorted@ + spec_sort_desc(rest@) =~= sorted@);
        assert(sorted@ =~= target);
        assert(all_docs(rest@) =~= Seq::<DocModel>::empty());
        lemma_empty_seq_ms();
        assert(all_docs(sorted@).to_multiset() =~= total);
    }
    sorted
}

/// A bin fold reads the first bin, then the rest.
proof fn lemma_bins_ms_drop_first(bs: Seq<Vec<Segment>>, n: int)
    requires
        1 <= n <= bs.len(),
    ensures
        bins_ms(bs, n) =~= all_docs(bs[0]@).to_multiset().add(bins_ms(bs.remove(0), n - 1)),
    decreases n,
{
    broadcast use vstd::multiset::group_multiset_axioms;

    if n == 1 {
        assert(bins_ms(bs, 0) =~= vstd::multiset::Multiset::<DocModel>::empty());
        assert(bins_ms(bs.remove(0), 0) =~= vstd::multiset::Multiset::<DocModel>::empty());
    } else {
        lemma_bins_ms_drop_first(bs, n - 1);
        assert(bs.remove(0)[n - 2] == bs[n - 1]);
    }
}

/// The survivors of every segment, concatenated in order.
pub open spec fn survivors_concat(segs: Seq<Segment>, ts: Seq<Tombstone>) -> Seq<DocModel>
    decreases segs.len(),
{
    if segs.len() == 0 {
        Seq::empty()
    } else {
        survivors_concat(segs.drop_last(), ts) + spec_survivors(seg_docs(segs.last()), ts)
    }
}

/// Survivors keep no more documents than were there.
proof fn lemma_survivors_len(docs: Seq<DocModel>, ts: Seq<Tombstone>)
    ensures
        spec_survivors(docs, ts).len() <= docs.len(),
    decreases docs.len(),
{
    if docs.len() > 0 {
        lemma_survivors_len(docs.drop_last(), ts);
    }
}

/// Filtering segment by segment or over the concatenation is the same.
proof fn lemma_all_docs_survivors_concat(segs: Seq<Segment>, ts: Seq<Tombstone>)
    ensures
        survivors_concat(segs, ts) =~= spec_survivors(all_docs(segs), ts),
    decreases segs.len(),
{
    if segs.len() > 0 {
        lemma_all_docs_survivors_concat(segs.drop_last(), ts);
        lemma_survivors_concat_distrib(all_docs(segs.drop_last()), seg_docs(segs.last()), ts);
    }
}

/// Survivors distribute over concatenation.
proof fn lemma_survivors_concat_distrib(a: Seq<DocModel>, b: Seq<DocModel>, ts: Seq<Tombstone>)
    ensures
        spec_survivors(a + b, ts) =~= spec_survivors(a, ts) + spec_survivors(b, ts),
    decreases b.len(),
{
    if b.len() == 0 {
        assert(a + b =~= a);
        assert(spec_survivors(b, ts) =~= Seq::<DocModel>::empty());
    } else {
        lemma_survivors_concat_distrib(a, b.drop_last(), ts);
        assert((a + b).drop_last() =~= a + b.drop_last());
        assert((a + b).last() == b.last());
    }
}

} // verus!
