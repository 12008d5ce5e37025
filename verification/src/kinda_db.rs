//! The ledger: what is known of each subscriber, kept in memory and spelled
//! out as text, one record to a line, whenever it changes.

use crate::domain::Location;
use crate::record::{
    lemma_record_reads_back, parse_record, read_record, render_line, write_record, Entry,
    RecordError, NEWLINE,
};
use crate::tokens::{
    closed_by, lemma_tokens_append, lemma_tokens_cons, locates, slice_of, split, tokens, Separator,
};
use std::collections::HashMap;
use vstd::prelude::*;
use vstd::std_specs::hash::*;
use vstd::std_specs::iter::IteratorSpec;

verus! {

/// Why a stored text is no ledger: the number of the first line, counted
/// from zero over the lines that are not empty, that spells no record, and
/// the field at which it fails.
#[derive(Clone, Copy, Debug, PartialEq, Eq, Structural)]
pub struct LoadError {
    pub line: usize,
    pub error: RecordError,
}

/// The ledger that a run of lines spells. A later line for a key replaces
/// an earlier one. The first line that spells no record makes the whole
/// run unreadable.
pub open spec fn read_lines(lines: Seq<Seq<u8>>) -> Result<Map<i64, Entry>, LoadError>
    decreases lines.len(),
{
    if lines.len() == 0 {
        Ok(Map::empty())
    } else {
        match read_lines(lines.drop_last()) {
            Err(e) => Err(e),
            Ok(m) => match parse_record(lines.last()) {
                Ok(record) => Ok(m.insert(record.0, record.1)),
                Err(error) => Err(LoadError { line: (lines.len() - 1) as usize, error }),
            },
        }
    }
}

/// The ledger that a stored text spells: its lines are the pieces between
/// line feeds, the empty ones left out.
pub open spec fn read_state(text: Seq<u8>) -> Result<Map<i64, Entry>, LoadError> {
    read_lines(tokens(text, Separator::Newline))
}

/// The text that spells the records of `m` under the keys of `order`, in
/// that order, each on a line of its own.
pub open spec fn render_state(order: Seq<i64>, m: Map<i64, Entry>) -> Seq<u8>
    decreases order.len(),
{
    if order.len() == 0 {
        Seq::empty()
    } else {
        render_state(order.drop_last(), m) + render_line(order.last(), m[order.last()])
            + seq![NEWLINE]
    }
}

/// `order` names each key of `m` once.
pub open spec fn lists_keys(order: Seq<i64>, m: Map<i64, Entry>) -> bool {
    order.no_duplicates() && order.to_set() == m.dom()
}

/// `text` spells the ledger `m`: each of its records once, in some order.
pub open spec fn is_saved_state(text: Seq<u8>, m: Map<i64, Entry>) -> bool {
    exists|order: Seq<i64>| lists_keys(order, m) && text == #[trigger] render_state(order, m)
}

/// The records of `m` under the keys that `order` names.
pub open spec fn chosen(order: Seq<i64>, m: Map<i64, Entry>) -> Map<i64, Entry> {
    Map::new(|k: i64| order.contains(k), |k: i64| m[k])
}

/// A rendered ledger is closed by a line feed, and reading it gives the
/// records that were rendered.
pub proof fn lemma_rendered_reads_back(order: Seq<i64>, m: Map<i64, Entry>)
    ensures
        closed_by(render_state(order, m), Separator::Newline),
        read_state(render_state(order, m)) == Ok::<Map<i64, Entry>, LoadError>(chosen(order, m)),
    decreases order.len(),
{
    let sep = Separator::Newline;
    if order.len() == 0 {
        assert(tokens(Seq::<u8>::empty(), sep) == Seq::<Seq<u8>>::empty());
        assert(chosen(order, m) == Map::<i64, Entry>::empty());
    } else {
        let front = order.drop_last();
        let key = order.last();
        let head = render_state(front, m);
        let line = render_line(key, m[key]);
        lemma_rendered_reads_back(front, m);
        lemma_record_reads_back(key, m[key]);
        assert(render_state(order, m) == head + (line + seq![NEWLINE]));
        assert((line + seq![NEWLINE]).last() == NEWLINE);
        assert(render_state(order, m).last() == NEWLINE);
        lemma_tokens_append(head, line + seq![NEWLINE], sep);
        assert(line + seq![NEWLINE] == line + seq![NEWLINE] + Seq::<u8>::empty());
        lemma_tokens_cons(line, NEWLINE, Seq::<u8>::empty(), sep);
        assert(tokens(Seq::<u8>::empty(), sep) == Seq::<Seq<u8>>::empty());
        let lines = tokens(render_state(order, m), sep);
        assert(lines == tokens(head, sep).push(line));
        assert(lines.drop_last() == tokens(head, sep));
        assert(lines.last() == line);
        assert(chosen(front, m).insert(key, m[key]) == chosen(order, m)) by {
            assert forall|k: i64| order.contains(k) <==> (front.contains(k) || k == key) by {
                if order.contains(k) {
                    let i = choose|i: int| 0 <= i < order.len() && order[i] == k;
                    if i < front.len() {
                        assert(front[i] == k);
                    }
                }
                if front.contains(k) {
                    let i = choose|i: int| 0 <= i < front.len() && front[i] == k;
                    assert(order[i] == k);
                }
                assert(order[order.len() - 1] == key);
            }
        }
    }
}

/// Writing a ledger and reading the text again gives the ledger back: a
/// text that spells `m` holds every key, location and time of last alert of
/// `m`, and nothing else.
pub proof fn lemma_saved_state_reads_back(text: Seq<u8>, m: Map<i64, Entry>)
    requires
        is_saved_state(text, m),
    ensures
        read_state(text) == Ok::<Map<i64, Entry>, LoadError>(m),
{
    let order = choose|order: Seq<i64>| lists_keys(order, m) && text == #[trigger] render_state(
        order,
        m,
    );
    lemma_rendered_reads_back(order, m);
    assert(chosen(order, m) == m) by {
        assert forall|k: i64| order.contains(k) <==> m.dom().contains(k) by {
            assert(order.to_set().contains(k) <==> order.contains(k));
        }
    }
}

/// The ledger of subscribers: under each key the location of the
/// subscriber and the time of the last alert, where there was one.
pub struct KindaDb {
    state: HashMap<i64, Entry>,
}

impl View for KindaDb {
    type V = Map<i64, Entry>;

    closed spec fn view(&self) -> Map<i64, Entry> {
        self.state@
    }
}

impl KindaDb {
    /// Opens the ledger from what is stored: empty where nothing is stored
    /// yet, else what the stored text spells. A text with a line that
    /// spells no record opens no ledger.
    pub fn new(stored: Option<&[u8]>) -> (opened: Result<KindaDb, LoadError>)
        ensures
            match stored {
                None => opened matches Ok(db) && db@ == Map::<i64, Entry>::empty(),
                Some(text) => match read_state(text@) {
                    Ok(m) => opened matches Ok(db) && db@ == m,
                    Err(e) => opened matches Err(err) && err == e,
                },
            },
    {
        broadcast use group_hash_axioms;

        let mut state: HashMap<i64, Entry> = HashMap::new();
        let text = match stored {
            None => {
                return Ok(KindaDb { state });
            },
            Some(text) => text,
        };
        let lines = split(text, Separator::Newline);
        let ghost all = tokens(text@, Separator::Newline);
        let mut i: usize = 0;
        proof {
            assert(all.take(0) == Seq::<Seq<u8>>::empty());
        }
        while i < lines.len()
            invariant
                i <= lines.len(),
                stored == Some(text),
                all == tokens(text@, Separator::Newline),
                locates(lines@, text@, Separator::Newline),
                read_lines(all.take(i as int)) == Ok::<Map<i64, Entry>, LoadError>(state@),
            decreases lines.len() - i,
        {
            let line = slice_of(text, lines[i]);
            proof {
                let grown = all.take(i + 1);
                assert(grown.drop_last() == all.take(i as int));
                assert(grown.last() == line@);
            }
            match read_record(line) {
                Ok(record) => {
                    state.insert(record.0, record.1);
                },
                Err(error) => {
                    proof {
                        let grown = all.take(i + 1);
                        assert(parse_record(grown.last()) == Err::<(i64, Entry), RecordError>(
                            error,
                        ));
                        assert(read_lines(grown) == Err::<Map<i64, Entry>, LoadError>(
                            LoadError { line: i, error },
                        ));
                        lemma_read_lines_fails_on(all, i as int);
                    }
                    return Err(LoadError { line: i, error });
                },
            }
            i = i + 1;
        }
        proof {
            assert(all.take(i as int) == all);
        }
        Ok(KindaDb { state })
    }

    /// A copy of all that the ledger holds.
    pub fn all(&self) -> (copy: HashMap<i64, Entry>)
        ensures
            copy@ == self@,
    {
        self.state.clone()
    }

    /// Records where the subscriber under `chat_id` is, for a new
    /// subscriber and for a known one alike. Nothing is kept of an earlier
    /// record under the key: the time of the last alert is gone. Returns
    /// the text to store.
    pub fn add(&mut self, chat_id: i64, location: Location) -> (text: Vec<u8>)
        ensures
            final(self)@ == old(self)@.insert(chat_id, (location, None::<u64>)),
            is_saved_state(text@, final(self)@),
            read_state(text@) == Ok::<Map<i64, Entry>, LoadError>(final(self)@),
    {
        broadcast use group_hash_axioms;

        self.state.insert(chat_id, (location, None));
        self.save_state()
    }

    /// Records that the subscriber under `chat_id` was alerted at `time`.
    /// Of a key that the ledger does not hold, nothing is recorded. Returns
    /// the text to store.
    pub fn update(&mut self, chat_id: i64, time: u64) -> (text: Vec<u8>)
        ensures
            final(self)@ == if old(self)@.contains_key(chat_id) {
                old(self)@.insert(chat_id, (old(self)@[chat_id].0, Some(time)))
            } else {
                old(self)@
            },
            is_saved_state(text@, final(self)@),
            read_state(text@) == Ok::<Map<i64, Entry>, LoadError>(final(self)@),
    {
        broadcast use group_hash_axioms;

        let known = match self.state.get(&chat_id) {
            Some(entry) => Some(entry.0),
            None => None,
        };
        match known {
            Some(location) => {
                self.state.insert(chat_id, (location, Some(time)));
            },
            None => {},
        }
        self.save_state()
    }

    /// Forgets the subscriber under `chat_id`; a key that the ledger does
    /// not hold changes nothing. Returns the text to store.
    pub fn delete(&mut self, chat_id: i64) -> (text: Vec<u8>)
        ensures
            final(self)@ == old(self)@.remove(chat_id),
            is_saved_state(text@, final(self)@),
            read_state(text@) == Ok::<Map<i64, Entry>, LoadError>(final(self)@),
    {
        broadcast use group_hash_axioms;

        self.state.remove(&chat_id);
        self.save_state()
    }

    /// The text that spells the ledger: each record once, on a line of its
    /// own, in no promised order.
    pub fn save_state(&self) -> (text: Vec<u8>)
        ensures
            is_saved_state(text@, self@),
            read_state(text@) == Ok::<Map<i64, Entry>, LoadError>(self@),
    {
        broadcast use group_hash_axioms;

        let mut out: Vec<u8> = Vec::new();
        let ghost mut order: Seq<i64> = Seq::empty();
        let ghost m = self.state@;
        for pair in it: self.state.iter()
            invariant
                m == self.state@,
                it.seq() == spec_hash_map_iter(&self.state).remaining(),
                order.len() == it.index(),
                forall|j: int| 0 <= j < order.len() ==> order[j] == *(#[trigger] it.seq()[j]).0,
                out@ == render_state(order, m),
        {
            let ghost at = it.index();
            let key: i64 = *pair.0;
            proof {
                let grown = order.push(key);
                assert(grown.drop_last() == order);
                assert(grown.last() == key);
                assert(m.contains_key(*it.seq()[at].0) && m[*it.seq()[at].0] == *it.seq()[at].1);
            }
            write_record(&mut out, key, pair.1);
            proof {
                order = order.push(key);
            }
        }
        proof {
            let items = spec_hash_map_iter(&self.state).remaining();
            assert(order.no_duplicates()) by {
                assert forall|a: int, b: int|
                    0 <= a < order.len() && 0 <= b < order.len() && a != b implies order[a]
                    != order[b] by {
                    if order[a] == order[b] {
                        assert(m[*items[a].0] == *items[a].1);
                        assert(m[*items[b].0] == *items[b].1);
                        assert(items[a] == items[b]);
                    }
                }
            }
            assert(order.to_set() == m.dom()) by {
                assert forall|k: i64| order.to_set().contains(k) <==> m.dom().contains(k) by {
                    if order.to_set().contains(k) {
                        let j = choose|j: int| 0 <= j < order.len() && order[j] == k;
                        assert(m.contains_key(*items[j].0));
                    }
                    if m.contains_key(k) {
                        assert(items.contains((&k, &m[k])));
                        let j = choose|j: int| 0 <= j < items.len() && items[j] == (&k, &m[k]);
                        assert(order[j] == k);
                    }
                }
            }
            assert(lists_keys(order, m));
            lemma_saved_state_reads_back(out@, m);
        }
        out
    }
}

/// A run of lines whose beginning cannot be read cannot be read, and fails
/// where its beginning fails.
pub proof fn lemma_read_lines_fails_on(lines: Seq<Seq<u8>>, i: int)
    requires
        0 <= i < lines.len(),
        read_lines(lines.take(i + 1)) is Err,
    ensures
        read_lines(lines) == read_lines(lines.take(i + 1)),
    decreases lines.len() - i,
{
    if i + 1 < lines.len() {
        assert(lines.take(i + 2).drop_last() == lines.take(i + 1));
        lemma_read_lines_fails_on(lines, i + 1);
    } else {
        assert(lines.take(i + 1) == lines);
    }
}

} // verus!
