//! The ledger itself: per-reader records and the global counter.
use vstd::prelude::*;

use crate::ledger::{lemma_complete_keeps_wf, lemma_count_within_global, LedgerView};
use crate::LedgerError;

verus! {

/// Both counters after one more completion: the reader's and the global one.
/// Fails, changing nothing, where either counter is already at its largest value.
pub fn bump_counts(reader_count: u32, global_count: u32) -> (r: Result<(u32, u32), LedgerError>)
    ensures
        r is Ok <==> reader_count < u32::MAX && global_count < u32::MAX,
        r matches Ok((c, g)) ==> c == reader_count + 1 && g == global_count + 1,
        r matches Err(e) ==> e == LedgerError::StorageFailure,
{
    if reader_count == u32::MAX || global_count == u32::MAX {
        Err(LedgerError::StorageFailure)
    } else {
        Ok((reader_count + 1, global_count + 1))
    }
}

/// What the ledger keeps of one reader.
struct ReaderRecord {
    reader: String,
    count: u32,
    last_book: String,
}

/// Books completed per reader, the latest title per reader, and the number of
/// completions across all readers. A reader is known by an identity string,
/// such as the text form of an address.
pub struct ReadingTracker {
    records: Vec<ReaderRecord>,
    global_count: u32,
}

impl ReadingTracker {
    /// Position of the record of `reader`.
    spec fn slot(&self, reader: Seq<char>) -> int {
        choose|i: int| 0 <= i < self.records@.len() && self.records@[i].reader@ == reader
    }

    /// The readers of `records`, in order.
    spec fn readers_of(records: Seq<ReaderRecord>) -> Seq<Seq<char>> {
        records.map_values(|e: ReaderRecord| e.reader@)
    }

    /// The ledger it holds is well formed (`LedgerView::wf`).
    pub open spec fn wf(&self) -> bool {
        self@.wf()
    }

    /// With readers listed once each, record `i` is the one its reader's
    /// entries come from.
    proof fn lemma_slot(&self, i: int)
        requires
            Self::readers_of(self.records@).no_duplicates(),
            0 <= i < self.records@.len(),
        ensures
            self.slot(self.records@[i].reader@) == i,
            self@.readers.contains(self.records@[i].reader@),
            self@.total_books(self.records@[i].reader@) == self.records@[i].count,
            self@.last_book(self.records@[i].reader@) == self.records@[i].last_book@,
    {
        let r = self.records@[i].reader@;
        let readers = Self::readers_of(self.records@);
        assert(readers[i] == r);
        let j = self.slot(r);
        assert(readers[j] == r);
    }

    /// A ledger with no completion recorded.
    pub fn new() -> (r: ReadingTracker)
        ensures
            r.wf(),
            r@ == LedgerView::empty(),
    {
        let r = ReadingTracker { records: Vec::new(), global_count: 0 };
        assert(r@.readers =~= Seq::<Seq<char>>::empty());
        assert(r@.counts =~= Map::<Seq<char>, nat>::empty());
        assert(r@.last_books =~= Map::<Seq<char>, Seq<char>>::empty());
        r
    }

    /// Index of the record of `reader`, if there is one.
    fn find(&self, reader: &String) -> (r: Option<usize>)
        ensures
            match r {
                Some(i) => i < self.records@.len() && self.records@[i as int].reader@ == reader@,
                None => !self@.readers.contains(reader@),
            },
    {
        let mut i: usize = 0;
        while i < self.records.len()
            invariant
                i <= self.records@.len(),
                forall|j: int| 0 <= j < i ==> self.records@[j].reader@ != reader@,
            decreases self.records@.len() - i,
        {
            if self.records[i].reader == *reader {
                return Some(i);
            }
            i = i + 1;
        }
        assert forall|k: int| 0 <= k < self@.readers.len() implies self@.readers[k] != reader@ by {
            assert(self@.readers[k] == self.records@[k].reader@);
        }
        None
    }

    /// Books completed by `reader`; 0 for a reader never seen.
    pub fn get_total_books(&self, reader: &String) -> (r: u32)
        requires
            self.wf(),
        ensures
            r == self@.total_books(reader@),
    {
        match self.find(reader) {
            Some(i) => {
                proof { self.lemma_slot(i as int); }
                self.records[i].count
            },
            None => 0,
        }
    }

    /// Title of the latest book completed by `reader`; empty for a reader never seen.
    pub fn get_last_book(&self, reader: &String) -> (r: String)
        requires
            self.wf(),
        ensures
            r@ == self@.last_book(reader@),
    {
        match self.find(reader) {
            Some(i) => {
                proof { self.lemma_slot(i as int); }
                self.records[i].last_book.clone()
            },
            None => String::new(),
        }
    }

    /// Records that `reader` completed `book_title`: their count and the
    /// global count go up by one, and the title becomes their latest. Fails
    /// with `StorageFailure`, leaving the ledger as it was, where the global
    /// count is already at its largest value.
    pub fn complete_book(&mut self, reader: String, book_title: String) -> (r: Result<(), LedgerError>)
        requires
            old(self).wf(),
        ensures
            final(self).wf(),
            r is Ok <==> old(self)@.global < u32::MAX,
            r is Ok ==> final(self)@ == old(self)@.complete(reader@, book_title@),
            r is Err ==> final(self)@ == old(self)@ && r == Err::<(), LedgerError>(LedgerError::StorageFailure),
    {
        let ghost before: ReadingTracker = *self;
        let ghost goal = before@.complete(reader@, book_title@);
        proof {
            lemma_count_within_global(before@, reader@);
            lemma_complete_keeps_wf(before@, reader@, book_title@);
        }
        match self.find(&reader) {
            Some(i) => {
                proof { self.lemma_slot(i as int); }
                let (count, global) = match bump_counts(self.records[i].count, self.global_count) {
                    Ok(c) => c,
                    Err(e) => return Err(e),
                };
                self.records.set(i, ReaderRecord { reader, count, last_book: book_title });
                self.global_count = global;
                proof {
                    assert(self@.readers =~= before@.readers) by {
                        assert forall|k: int| 0 <= k < before@.readers.len() implies self@.readers[k] == before@.readers[k] by {
                            assert(self@.readers[k] == self.records@[k].reader@);
                            assert(before@.readers[k] == before.records@[k].reader@);
                        }
                    }
                    self.lemma_slot(i as int);
                    assert forall|r: Seq<char>| #[trigger] before@.readers.contains(r) && r != goal.readers[i as int] implies
                        self@.counts[r] == before@.counts[r] && self@.last_books[r] == before@.last_books[r] by {
                        let k = choose|k: int| 0 <= k < before@.readers.len() && before@.readers[k] == r;
                        assert(before@.readers[k] == before.records@[k].reader@);
                        before.lemma_slot(k);
                        self.lemma_slot(k);
                    }
                    assert(self@.counts =~= goal.counts);
                    assert(self@.last_books =~= goal.last_books);
                }
            },
            None => {
                let (count, global) = match bump_counts(0, self.global_count) {
                    Ok(c) => c,
                    Err(e) => return Err(e),
                };
                self.records.push(ReaderRecord { reader, count, last_book: book_title });
                self.global_count = global;
                proof {
                    let n = before.records@.len() as int;
                    assert(self@.readers =~= goal.readers) by {
                        assert forall|k: int| 0 <= k < n implies self@.readers[k] == before@.readers[k] by {
                            assert(self@.readers[k] == self.records@[k].reader@);
                            assert(before@.readers[k] == before.records@[k].reader@);
                        }
                        assert(self@.readers[n] == self.records@[n].reader@);
                    }
                    self.lemma_slot(n);
                    assert forall|r: Seq<char>| #[trigger] before@.readers.contains(r) implies
                        self@.counts[r] == before@.counts[r] && self@.last_books[r] == before@.last_books[r] by {
                        let k = choose|k: int| 0 <= k < before@.readers.len() && before@.readers[k] == r;
                        assert(before@.readers[k] == before.records@[k].reader@);
                        before.lemma_slot(k);
                        self.lemma_slot(k);
                    }
                    assert(self@.counts =~= goal.counts);
                    assert(self@.last_books =~= goal.last_books);
                }
            },
        }
        Ok(())
    }

    /// Books completed by all readers together.
    pub fn get_global_count(&self) -> (r: u32)
        ensures
            r == self@.global,
    {
        self.global_count
    }
}

impl View for ReadingTracker {
    type V = LedgerView;

    closed spec fn view(&self) -> LedgerView {
        let readers = Self::readers_of(self.records@);
        LedgerView {
            readers,
            counts: Map::new(
                |r: Seq<char>| readers.contains(r),
                |r: Seq<char>| self.records@[self.slot(r)].count as nat,
            ),
            last_books: Map::new(
                |r: Seq<char>| readers.contains(r),
                |r: Seq<char>| self.records@[self.slot(r)].last_book@,
            ),
            global: self.global_count as nat,
        }
    }
}

} // verus!
