//! The abstract state of the ledger and the laws that its completions obey.
use vstd::prelude::*;

verus! {

/// What a ledger holds, as mathematical values.
pub struct LedgerView {
    /// Every reader who has completed a book, once each, in the order of their
    /// first completion.
    pub readers: Seq<Seq<char>>,
    /// Books completed by each reader.
    pub counts: Map<Seq<char>, nat>,
    /// Title of each reader's most recent completion.
    pub last_books: Map<Seq<char>, Seq<char>>,
    /// Books completed by all readers together.
    pub global: nat,
}

impl LedgerView {
    /// The ledger before any completion.
    pub open spec fn empty() -> LedgerView {
        LedgerView {
            readers: Seq::empty(),
            counts: Map::empty(),
            last_books: Map::empty(),
            global: 0,
        }
    }

    /// Books completed by `reader`; 0 for a reader never seen.
    pub open spec fn total_books(self, reader: Seq<char>) -> nat {
        if self.counts.contains_key(reader) {
            self.counts[reader]
        } else {
            0
        }
    }

    /// Title of the latest book completed by `reader`; empty for a reader never seen.
    pub open spec fn last_book(self, reader: Seq<char>) -> Seq<char> {
        if self.last_books.contains_key(reader) {
            self.last_books[reader]
        } else {
            Seq::empty()
        }
    }

    /// Sum of `total_books` over `readers`.
    pub open spec fn books_sum(self, readers: Seq<Seq<char>>) -> nat
        decreases readers.len(),
    {
        if readers.len() == 0 {
            0
        } else {
            self.books_sum(readers.drop_last()) + self.total_books(readers.last())
        }
    }

    /// Each reader is listed once, exactly the listed readers have entries, and the
    /// global counter is the sum of the per-reader counts.
    pub open spec fn wf(self) -> bool {
        &&& self.readers.no_duplicates()
        &&& forall|r: Seq<char>| #[trigger] self.counts.contains_key(r) <==> self.readers.contains(r)
        &&& forall|r: Seq<char>| #[trigger] self.last_books.contains_key(r) <==> self.readers.contains(r)
        &&& self.global == self.books_sum(self.readers)
    }

    /// The ledger after `reader` completes the book `title`.
    pub open spec fn complete(self, reader: Seq<char>, title: Seq<char>) -> LedgerView {
        LedgerView {
            readers: if self.readers.contains(reader) {
                self.readers
            } else {
                self.readers.push(reader)
            },
            counts: self.counts.insert(reader, self.total_books(reader) + 1),
            last_books: self.last_books.insert(reader, title),
            global: self.global + 1,
        }
    }

    /// The ledger after `reader` completes each of `titles`, in order.
    pub open spec fn complete_all(self, reader: Seq<char>, titles: Seq<Seq<char>>) -> LedgerView
        decreases titles.len(),
    {
        if titles.len() == 0 {
            self
        } else {
            self.complete_all(reader, titles.drop_last()).complete(reader, titles.last())
        }
    }

    /// The ledger after each completion of `events`, a list of (reader, title)
    /// pairs, in order.
    pub open spec fn replay(self, events: Seq<(Seq<char>, Seq<char>)>) -> LedgerView
        decreases events.len(),
    {
        if events.len() == 0 {
            self
        } else {
            self.replay(events.drop_last()).complete(events.last().0, events.last().1)
        }
    }
}

/// Changing the count of `reader` alone changes a sum over distinct readers by
/// the difference of that count, where `reader` is among them.
proof fn lemma_books_sum_one_changed(a: LedgerView, b: LedgerView, readers: Seq<Seq<char>>, reader: Seq<char>)
    requires
        readers.no_duplicates(),
        forall|r: Seq<char>| r != reader ==> a.total_books(r) == b.total_books(r),
    ensures
        b.books_sum(readers) + (if readers.contains(reader) { a.total_books(reader) } else { 0 })
            == a.books_sum(readers) + (if readers.contains(reader) { b.total_books(reader) } else { 0 }),
    decreases readers.len(),
{
    if readers.len() > 0 {
        let rest = readers.drop_last();
        assert(rest.no_duplicates());
        lemma_books_sum_one_changed(a, b, rest, reader);
        if readers.last() == reader {
            assert(!rest.contains(reader));
        } else {
            assert(readers.contains(reader) == rest.contains(reader)) by {
                if readers.contains(reader) {
                    let k = choose|k: int| 0 <= k < readers.len() && readers[k] == reader;
                    assert(rest[k] == reader);
                }
            }
        }
    }
}

/// A listed reader's count is part of the sum.
proof fn lemma_count_within_sum(v: LedgerView, readers: Seq<Seq<char>>, reader: Seq<char>)
    requires
        readers.contains(reader),
    ensures
        v.total_books(reader) <= v.books_sum(readers),
    decreases readers.len(),
{
    if readers.last() != reader {
        let k = choose|k: int| 0 <= k < readers.len() && readers[k] == reader;
        assert(readers.drop_last()[k] == reader);
        lemma_count_within_sum(v, readers.drop_last(), reader);
    }
}

/// No reader has completed more books than all readers together.
pub proof fn lemma_count_within_global(v: LedgerView, reader: Seq<char>)
    requires
        v.wf(),
    ensures
        v.total_books(reader) <= v.global,
{
    if v.readers.contains(reader) {
        lemma_count_within_sum(v, v.readers, reader);
    }
}

/// A completion adds its reader to the readers, if not already there.
pub proof fn lemma_complete_readers(v: LedgerView, reader: Seq<char>, title: Seq<char>)
    ensures
        forall|r: Seq<char>|
            #[trigger] v.complete(reader, title).readers.contains(r) <==> (v.readers.contains(r) || r == reader),
{
    let w = v.complete(reader, title);
    if !v.readers.contains(reader) {
        assert forall|r: Seq<char>| #[trigger] w.readers.contains(r) <==> (v.readers.contains(r) || r == reader) by {
            if v.readers.contains(r) {
                let k = choose|k: int| 0 <= k < v.readers.len() && v.readers[k] == r;
                assert(w.readers[k] == r);
            }
            if r == reader {
                assert(w.readers[v.readers.len() as int] == r);
            }
        }
    }
}

/// A completion keeps the ledger well formed.
pub proof fn lemma_complete_keeps_wf(v: LedgerView, reader: Seq<char>, title: Seq<char>)
    requires
        v.wf(),
    ensures
        v.complete(reader, title).wf(),
{
    let w = v.complete(reader, title);
    if v.readers.contains(reader) {
        lemma_books_sum_one_changed(v, w, v.readers, reader);
    } else {
        lemma_books_sum_one_changed(v, w, v.readers, reader);
        assert(w.readers.drop_last() =~= v.readers);
        assert forall|i: int, j: int| 0 <= i < j < w.readers.len() implies w.readers[i] != w.readers[j] by {
            if j == v.readers.len() {
                assert(v.readers[i] == w.readers[i]);
            }
        }
        lemma_complete_readers(v, reader, title);
        assert(w.books_sum(w.readers) == w.books_sum(v.readers) + w.total_books(reader));
    }
}

/// The ledger before any completion is well formed and holds nothing.
pub proof fn lemma_empty_ledger(reader: Seq<char>)
    ensures
        LedgerView::empty().wf(),
        LedgerView::empty().global == 0,
        LedgerView::empty().total_books(reader) == 0,
        LedgerView::empty().last_book(reader) == Seq::<char>::empty(),
{
}

/// A reader who has never completed a book has a count of 0 and an empty
/// latest title.
pub proof fn lemma_unseen_reader_is_blank(v: LedgerView, reader: Seq<char>)
    requires
        v.wf(),
        !v.readers.contains(reader),
    ensures
        v.total_books(reader) == 0,
        v.last_book(reader) == Seq::<char>::empty(),
{
}

/// After N completions by one reader, that reader's count has grown by N, and
/// so has the global count: a reader never seen before ends at N.
pub proof fn lemma_repeated_completions(v: LedgerView, reader: Seq<char>, titles: Seq<Seq<char>>)
    requires
        v.wf(),
    ensures
        v.complete_all(reader, titles).wf(),
        v.complete_all(reader, titles).total_books(reader) == v.total_books(reader) + titles.len(),
        v.complete_all(reader, titles).global == v.global + titles.len(),
        !v.readers.contains(reader) ==> v.complete_all(reader, titles).total_books(reader) == titles.len(),
    decreases titles.len(),
{
    if titles.len() > 0 {
        lemma_repeated_completions(v, reader, titles.drop_last());
        lemma_complete_keeps_wf(v.complete_all(reader, titles.drop_last()), reader, titles.last());
    }
}

/// A completion makes its title the reader's latest, whatever was there
/// before, and counts even when the title repeats the previous one.
pub proof fn lemma_last_title_wins(v: LedgerView, reader: Seq<char>, title: Seq<char>)
    ensures
        v.complete(reader, title).last_book(reader) == title,
        v.complete(reader, title).total_books(reader) == v.total_books(reader) + 1,
        v.complete(reader, title).complete(reader, title).last_book(reader) == title,
        v.complete(reader, title).complete(reader, title).total_books(reader) == v.total_books(reader) + 2,
{
}

/// After any history of completions from the empty ledger, the global count
/// is the sum of the counts of the readers who have completed a book, and
/// those readers are exactly the ones that appear in the history.
pub proof fn lemma_global_is_sum_of_readers(events: Seq<(Seq<char>, Seq<char>)>)
    ensures
        LedgerView::empty().replay(events).wf(),
        LedgerView::empty().replay(events).global
            == LedgerView::empty().replay(events).books_sum(LedgerView::empty().replay(events).readers),
        LedgerView::empty().replay(events).global == events.len(),
        forall|r: Seq<char>|
            LedgerView::empty().replay(events).readers.contains(r)
                <==> exists|k: int| 0 <= k < events.len() && (#[trigger] events[k]).0 == r,
    decreases events.len(),
{
    let v = LedgerView::empty().replay(events);
    if events.len() == 0 {
        lemma_empty_ledger(Seq::empty());
    } else {
        let rest = events.drop_last();
        let u = LedgerView::empty().replay(rest);
        let (reader, title) = events.last();
        lemma_global_is_sum_of_readers(rest);
        lemma_complete_keeps_wf(u, reader, title);
        lemma_complete_readers(u, reader, title);
        assert forall|r: Seq<char>|
            v.readers.contains(r) <==> exists|k: int| 0 <= k < events.len() && (#[trigger] events[k]).0 == r by {
            if exists|k: int| 0 <= k < events.len() && (#[trigger] events[k]).0 == r {
                let k = choose|k: int| 0 <= k < events.len() && (#[trigger] events[k]).0 == r;
                if k < rest.len() {
                    assert(rest[k] == events[k]);
                }
            }
            if u.readers.contains(r) {
                let k = choose|k: int| 0 <= k < rest.len() && (#[trigger] rest[k]).0 == r;
                assert(events[k] == rest[k]);
            }
            if r == reader {
                assert(events[events.len() - 1].0 == r);
            }
        }
    }
}

/// Completions by two different readers give the same counts, latest titles
/// and global count in either order, and in both the global count stays the
/// sum of the per-reader counts.
pub proof fn lemma_interleaved_completions_agree(
    v: LedgerView,
    a: Seq<char>,
    title_a: Seq<char>,
    b: Seq<char>,
    title_b: Seq<char>,
)
    requires
        v.wf(),
        a != b,
    ensures
        v.complete(a, title_a).complete(b, title_b).counts == v.complete(b, title_b).complete(a, title_a).counts,
        v.complete(a, title_a).complete(b, title_b).last_books == v.complete(b, title_b).complete(a, title_a).last_books,
        v.complete(a, title_a).complete(b, title_b).global == v.complete(b, title_b).complete(a, title_a).global,
        v.complete(a, title_a).complete(b, title_b).wf(),
        v.complete(b, title_b).complete(a, title_a).wf(),
{
    let x = v.complete(a, title_a).complete(b, title_b);
    let y = v.complete(b, title_b).complete(a, title_a);
    lemma_complete_keeps_wf(v, a, title_a);
    lemma_complete_keeps_wf(v.complete(a, title_a), b, title_b);
    lemma_complete_keeps_wf(v, b, title_b);
    lemma_complete_keeps_wf(v.complete(b, title_b), a, title_a);
    assert(x.counts =~= y.counts);
    assert(x.last_books =~= y.last_books);
}

} // verus!
