//! The storage engine's state: the index from keys to record locations, the
//! active generation, the stale-bytes counter and the writer over the active
//! segment. Reading and writing files is left to the caller: mutations hand
//! back the bytes to append, lookups hand back the location to read.
//!
//! Beside the executable state the store keeps a ghost model: `history`, the
//! log's commands in replay order, and `records`, the command that stands at
//! each `(generation, offset)` of the live log.
use crate::codec::{encode, encoding, put_open};
use crate::command::{Command, Op};
use crate::error::{KvStoreError, Result};
use crate::writer::BufWriterWithPos;
use vstd::prelude::*;

verus! {

/// Stale bytes above which the log is compacted.
pub const MAX_USELESS_SIZE: u64 = 4096;

/// Where a record stands: its segment's generation, its offset and its length.
#[derive(Clone, Copy, Debug, PartialEq, Eq, Structural)]
pub struct Pos {
    pub file_id: u64,
    pub offset: u64,
    pub length: u64,
}

pub open spec fn loc(p: Pos) -> (u64, u64) {
    (p.file_id, p.offset)
}

/// `a + b`, held at `u64::MAX`.
pub open spec fn sat_add(a: int, b: int) -> int {
    if a + b > u64::MAX {
        u64::MAX as int
    } else {
        a + b
    }
}

/// The key-value map that replaying a log of commands in order yields.
pub open spec fn replay(h: Seq<Op>) -> Map<Seq<char>, Seq<char>>
    decreases h.len(),
{
    if h.len() == 0 {
        Map::empty()
    } else {
        let m = replay(h.drop_last());
        match h.last() {
            Op::Put(k, v) => m.insert(k, v),
            Op::Del(k) => m.remove(k),
        }
    }
}

pub open spec fn op_value(op: Op) -> Seq<char> {
    match op {
        Op::Put(_, v) => v,
        Op::Del(_) => Seq::empty(),
    }
}

/// `a` comes before `b` in the log: an earlier generation, or an earlier
/// offset in the same one.
pub open spec fn loc_lt(a: (u64, u64), b: (u64, u64)) -> bool {
    a.0 < b.0 || (a.0 == b.0 && a.1 < b.1)
}

/// The located commands of a log as mathematical values.
pub open spec fn log_view(log: Seq<(Pos, Command)>) -> Seq<(Pos, Op)> {
    log.map_values(|e: (Pos, Command)| (e.0, e.1@))
}

/// The commands of a log, without their locations.
pub open spec fn log_ops(log: Seq<(Pos, Op)>) -> Seq<Op> {
    log.map_values(|e: (Pos, Op)| e.1)
}

/// The index that replaying a located log yields: each key that a `Set`
/// left live points at that `Set`.
pub open spec fn recover_index(log: Seq<(Pos, Op)>) -> Map<Seq<char>, Pos>
    decreases log.len(),
{
    if log.len() == 0 {
        Map::empty()
    } else {
        let m = recover_index(log.drop_last());
        match log.last().1 {
            Op::Put(k, _) => m.insert(k, log.last().0),
            Op::Del(k) => m.remove(k),
        }
    }
}

/// The length of the entry of `k` in `m`, or 0.
pub open spec fn displaced_len(m: Map<Seq<char>, Pos>, k: Seq<char>) -> int {
    if m.contains_key(k) {
        m[k].length as int
    } else {
        0
    }
}

/// The stale bytes that replaying a located log counts: each displaced
/// `Set`, and each `Rm` record itself.
pub open spec fn recover_stale(log: Seq<(Pos, Op)>) -> int
    decreases log.len(),
{
    if log.len() == 0 {
        0
    } else {
        let prev = recover_stale(log.drop_last());
        let m = recover_index(log.drop_last());
        match log.last().1 {
            Op::Put(k, _) => sat_add(prev, displaced_len(m, k)),
            Op::Del(k) => sat_add(sat_add(prev, displaced_len(m, k)), log.last().0.length as int),
        }
    }
}

/// The entries of `s` have distinct keys and are exactly the entries of `m`.
pub open spec fn entries_match(s: Seq<(String, Pos)>, m: Map<Seq<char>, Pos>) -> bool {
    &&& forall|i: int| 0 <= i < s.len() ==> #[trigger] m.contains_key(s[i].0@) && m[s[i].0@] == s[i].1
    &&& forall|i: int, j: int| 0 <= i < j < s.len() ==> #[trigger] s[i].0@ != #[trigger] s[j].0@
    &&& forall|k: Seq<char>| #[trigger] m.contains_key(k) ==> exists|i: int| 0 <= i < s.len() && s[i].0@ == k
}

/// The value that each indexed key has, as the records show it.
pub open spec fn contents_of(m: Map<Seq<char>, Pos>, rec: Map<(u64, u64), Op>) -> Map<Seq<char>, Seq<char>> {
    Map::new(|k: Seq<char>| m.contains_key(k), |k: Seq<char>| op_value(rec[loc(m[k])]))
}

fn saturating_add(a: u64, b: u64) -> (r: u64)
    ensures
        r == sat_add(a as int, b as int),
{
    if b > u64::MAX - a {
        u64::MAX
    } else {
        a + b
    }
}

/// What the threshold check that follows a mutation leaves in `s`, where the
/// mutation left the counter at `stale`, the active generation at `active`,
/// the writer at `end`, the index at `index` and the log at `history`: below
/// the threshold, or where compaction cannot fit, all of it unchanged;
/// otherwise a compaction `c`, after which the counter is 0 and the live
/// records stand end to end in generation `active + 1`.
pub open spec fn trigger_outcome(
    s: &KvStore,
    r: Option<Compaction>,
    stale: int,
    active: u64,
    end: u64,
    index: Map<Seq<char>, Pos>,
    history: Seq<Op>,
) -> bool {
    match r {
        None => {
            &&& s.stale() == stale
            &&& s.active() == active
            &&& s.end() == end
            &&& s.index_map() == index
            &&& s.history() == history
            &&& stale > MAX_USELESS_SIZE ==> (active > u64::MAX - 2
                || span_end(positions(s.entries()), s.entries().len() as int) > u64::MAX)
        },
        Some(c) => {
            &&& stale > MAX_USELESS_SIZE
            &&& s.stale() == 0
            &&& c.merge_file == active + 1
            &&& c.next_file == active + 2
            &&& s.active() == c.next_file
            &&& s.end() == 0
            &&& s.index_map().dom() == index.dom()
            &&& s.history() == live_puts(s.entries(), s.contents())
            &&& c.sources@.len() == s.entries().len()
            &&& c.merge_len == span_end(c.sources@, c.sources@.len() as int)
            &&& forall|j: int| 0 <= j < s.entries().len() ==> {
                &&& index.contains_key((#[trigger] s.entries()[j]).0)
                &&& c.sources@[j] == index[s.entries()[j].0]
                &&& s.entries()[j].1 == (Pos {
                    file_id: c.merge_file,
                    offset: span_end(c.sources@, j) as u64,
                    length: c.sources@[j].length,
                })
            }
        },
    }
}

/// Where a record of `len` bytes appended to `s`'s active segment lands.
pub open spec fn new_pos(s: &KvStore, len: nat) -> Pos {
    Pos { file_id: s.active(), offset: s.end(), length: len as u64 }
}

/// Relies on std::io::Error::new: the error reported when a segment would
/// grow past the largest offset.
#[verifier::external_body]
fn position_overflow() -> std::io::Error {
    std::io::Error::new(std::io::ErrorKind::Other, "segment offset overflow")
}

/// The end of the `j`-th record when the records of `s` are laid end to end
/// from offset 0: the sum of the first `j` lengths.
pub open spec fn span_end(s: Seq<Pos>, j: int) -> int
    decreases j,
{
    if j <= 0 || j > s.len() {
        0
    } else {
        span_end(s, j - 1) + s[j - 1].length
    }
}

proof fn lemma_span_end_mono(s: Seq<Pos>, a: int, b: int)
    requires
        0 <= a <= b <= s.len(),
    ensures
        span_end(s, a) <= span_end(s, b),
    decreases b - a,
{
    if a < b {
        lemma_span_end_mono(s, a, b - 1);
    }
}

/// The positions of a sequence of entries.
pub open spec fn positions(e: Seq<(Seq<char>, Pos)>) -> Seq<Pos> {
    e.map_values(|x: (Seq<char>, Pos)| x.1)
}

/// The log that compaction leaves: one `Set` per entry, in the entries' order.
pub open spec fn live_puts(e: Seq<(Seq<char>, Pos)>, contents: Map<Seq<char>, Seq<char>>) -> Seq<Op> {
    e.map_values(|x: (Seq<char>, Pos)| Op::Put(x.0, contents[x.0]))
}

/// The total encoded size of the `Set` records that the first `j` entries of
/// `e` hold with their values in `contents`.
pub open spec fn live_size(e: Seq<(Seq<char>, Pos)>, contents: Map<Seq<char>, Seq<char>>, j: int) -> int
    decreases j,
{
    if j <= 0 || j > e.len() {
        0
    } else {
        live_size(e, contents, j - 1) + encoding(Op::Put(e[j - 1].0, contents[e[j - 1].0])).len()
    }
}

/// What a compaction asks of the caller: copy the byte range of each of
/// `sources`, in order, to the end of the fresh segment `merge_file`, which
/// then holds `merge_len` bytes; flush it; delete every segment of a lower
/// generation; open `next_file` as the active segment.
pub struct Compaction {
    pub merge_file: u64,
    pub sources: Vec<Pos>,
    pub merge_len: u64,
    pub next_file: u64,
}

/// The engine: the index over the log, the active generation, the stale-bytes
/// counter and the writer over the active segment.
pub struct KvStore {
    /// Entries with distinct keys. A `Vec` rather than a hashed map: vstd
    /// specifies a `HashMap` only for key types whose hashing it models, and
    /// `String` is not among them.
    index: Vec<(String, Pos)>,
    map: Ghost<Map<Seq<char>, Pos>>,
    curr_file_num: u64,
    useless_size: u64,
    curr_writer: BufWriterWithPos,
    history: Ghost<Seq<Op>>,
    records: Ghost<Map<(u64, u64), Op>>,
}

impl KvStore {
    /// The index: each live key and the location of its latest `Set` record.
    pub closed spec fn index_map(&self) -> Map<Seq<char>, Pos> {
        self.map@
    }

    /// The index's entries in the order in which compaction rewrites them.
    pub closed spec fn entries(&self) -> Seq<(Seq<char>, Pos)> {
        self.index@.map_values(|e: (String, Pos)| (e.0@, e.1))
    }

    /// The live key-value map.
    pub closed spec fn contents(&self) -> Map<Seq<char>, Seq<char>> {
        contents_of(self.map@, self.records@)
    }

    /// The log's commands, in the order in which recovery replays them.
    pub closed spec fn history(&self) -> Seq<Op> {
        self.history@
    }

    /// The command recorded at location `p`.
    pub closed spec fn record_at(&self, p: Pos) -> Option<Op> {
        if self.records@.contains_key(loc(p)) {
            Some(self.records@[loc(p)])
        } else {
            None
        }
    }

    pub closed spec fn stale(&self) -> u64 {
        self.useless_size
    }

    /// The generation of the active segment.
    pub closed spec fn active(&self) -> u64 {
        self.curr_file_num
    }

    /// The offset at which the next record lands in the active segment.
    pub closed spec fn end(&self) -> u64 {
        self.curr_writer.pos()
    }

    pub closed spec fn wf(&self) -> bool {
        &&& entries_match(self.index@, self.map@)
        &&& forall|k: Seq<char>| #[trigger] self.map@.contains_key(k) ==> {
            &&& self.records@.contains_key(loc(self.map@[k]))
            &&& self.records@[loc(self.map@[k])] == Op::Put(k, op_value(self.records@[loc(self.map@[k])]))
            &&& self.map@[k].length > 0
            &&& self.map@[k].length == encoding(self.records@[loc(self.map@[k])]).len()
        }
        &&& forall|l: (u64, u64)| #[trigger] self.records@.contains_key(l) ==>
            l.0 < self.curr_file_num || (l.0 == self.curr_file_num && l.1 < self.curr_writer.pos())
        &&& replay(self.history@) == contents_of(self.map@, self.records@)
        &&& self.curr_writer.pending() == Seq::<u8>::empty()
    }

    /// An empty store whose active segment is generation 0, empty.
    pub fn new() -> (r: KvStore)
        ensures
            r.wf(),
            r.index_map() == Map::<Seq<char>, Pos>::empty(),
            r.contents() == Map::<Seq<char>, Seq<char>>::empty(),
            r.history() == Seq::<Op>::empty(),
            r.stale() == 0,
            r.active() == 0,
            r.end() == 0,
    {
        let r = KvStore {
            index: Vec::new(),
            map: Ghost(Map::empty()),
            curr_file_num: 0,
            useless_size: 0,
            curr_writer: BufWriterWithPos::new(0),
            history: Ghost(Seq::empty()),
            records: Ghost(Map::empty()),
        };
        assert(contents_of(r.map@, r.records@) =~= Map::empty());
        r
    }

    /// Replays the log into a fresh store, as `open` describes it.
    fn recover(log: Vec<(Pos, Command)>, active: u64, end: u64) -> (r: KvStore)
        requires
            forall|i: int| 0 <= i < log@.len() ==> (#[trigger] log@[i]).0.length > 0,
            forall|i: int| 0 <= i < log@.len() ==> (#[trigger] log@[i]).0.length == encoding(log@[i].1@).len(),
            forall|i: int| 0 <= i < log@.len() ==> (#[trigger] log@[i]).0.file_id < active
                || (log@[i].0.file_id == active && log@[i].0.offset < end),
            forall|i: int| 0 < i < log@.len() ==> loc_lt(loc(log@[i - 1].0), loc(#[trigger] log@[i].0)),
        ensures
            r.wf(),
            r.index_map() == recover_index(log_view(log@)),
            r.stale() == recover_stale(log_view(log@)),
            r.history() == log_ops(log_view(log@)),
            r.contents() == replay(log_ops(log_view(log@))),
            r.active() == active,
            r.end() == end,
    {
        let mut s = KvStore::new();
        s.curr_file_num = active;
        s.curr_writer = BufWriterWithPos::new(end);
        let ghost lv = log_view(log@);
        assert(log_ops(lv.take(0)) =~= Seq::<Op>::empty());
        let mut i: usize = 0;
        while i < log.len()
            invariant
                i <= log@.len(),
                lv == log_view(log@),
                forall|j: int| 0 <= j < log@.len() ==> (#[trigger] log@[j]).0.length > 0,
                forall|j: int| 0 <= j < log@.len() ==> (#[trigger] log@[j]).0.length == encoding(log@[j].1@).len(),
                forall|j: int| 0 <= j < log@.len() ==> (#[trigger] log@[j]).0.file_id < active
                    || (log@[j].0.file_id == active && log@[j].0.offset < end),
                forall|j: int| 0 < j < log@.len() ==> loc_lt(loc(log@[j - 1].0), loc(#[trigger] log@[j].0)),
                entries_match(s.index@, s.map@),
                s.map@ == recover_index(lv.take(i as int)),
                s.useless_size == recover_stale(lv.take(i as int)),
                s.history@ == log_ops(lv.take(i as int)),
                s.curr_file_num == active,
                s.curr_writer.pos() == end,
                s.curr_writer.pending() == Seq::<u8>::empty(),
                forall|l: (u64, u64)| #[trigger] s.records@.contains_key(l) ==>
                    l.0 < active || (l.0 == active && l.1 < end),
                forall|l: (u64, u64)| #[trigger] s.records@.contains_key(l) && i < log@.len() ==>
                    loc_lt(l, loc(log@[i as int].0)),
                forall|k: Seq<char>| #[trigger] s.map@.contains_key(k) ==> {
                    &&& s.records@.contains_key(loc(s.map@[k]))
                    &&& s.records@[loc(s.map@[k])] == Op::Put(k, op_value(s.records@[loc(s.map@[k])]))
                    &&& s.map@[k].length > 0
                &&& s.map@[k].length == encoding(s.records@[loc(s.map@[k])]).len()
                    &&& s.map@[k].length == encoding(s.records@[loc(s.map@[k])]).len()
            &&& s.map@[k].length == encoding(s.records@[loc(s.map@[k])]).len()
                },
                replay(s.history@) == contents_of(s.map@, s.records@),
            decreases log@.len() - i,
        {
            let p = log[i].0;
            let ghost op = log@[i as int].1@;
            let ghost old_s = s;
            assert(lv.take(i as int + 1).drop_last() =~= lv.take(i as int));
            assert(log_ops(lv.take(i as int + 1)) =~= log_ops(lv.take(i as int)).push(op));
            assert(lv.take(i as int + 1).last() == (p, op));
            match &log[i].1 {
                Command::Put(k, _) => {
                    let d = s.put_entry(k.clone(), p);
                    s.useless_size = saturating_add(s.useless_size, d);
                },
                Command::Rm(k) => {
                    let d = s.remove_entry(k);
                    let d = match d {
                        Some(d) => d,
                        None => 0,
                    };
                    s.useless_size = saturating_add(s.useless_size, d);
                    s.useless_size = saturating_add(s.useless_size, p.length);
                },
            }
            s.records = Ghost(s.records@.insert(loc(p), op));
            s.history = Ghost(s.history@.push(op));
            proof {
                assert(s.history@.drop_last() =~= old_s.history@);
                assert forall|kk: Seq<char>| #[trigger] old_s.map@.contains_key(kk) implies
                    loc(old_s.map@[kk]) != loc(p) by {
                    assert(old_s.records@.contains_key(loc(old_s.map@[kk])));
                }
                match op {
                    Op::Put(k, v) => {
                        assert(contents_of(s.map@, s.records@) =~= contents_of(old_s.map@, old_s.records@).insert(k, v));
                    },
                    Op::Del(k) => {
                        assert(contents_of(s.map@, s.records@) =~= contents_of(old_s.map@, old_s.records@).remove(k));
                    },
                }
                assert forall|k: Seq<char>| #[trigger] s.map@.contains_key(k) implies {
                    &&& s.records@.contains_key(loc(s.map@[k]))
                    &&& s.records@[loc(s.map@[k])] == Op::Put(k, op_value(s.records@[loc(s.map@[k])]))
                    &&& s.map@[k].length > 0
                &&& s.map@[k].length == encoding(s.records@[loc(s.map@[k])]).len()
                    &&& s.map@[k].length == encoding(s.records@[loc(s.map@[k])]).len()
            &&& s.map@[k].length == encoding(s.records@[loc(s.map@[k])]).len()
                } by {
                    if k != op.key() {
                        assert(old_s.map@.contains_key(k));
                    }
                }
                if i + 1 < log@.len() {
                    assert(loc_lt(loc(log@[i as int].0), loc(log@[i + 1].0)));
                }
            }
            i = i + 1;
        }
        assert(lv.take(log@.len() as int) =~= lv);
        s
    }

    /// Rewrites the index so that every live record stands in a fresh
    /// segment, laid end to end in the order of the entries, and resets the
    /// stale counter. Returns `None`, and changes nothing, where the
    /// generations or the merged segment's offsets would overflow.
    pub fn compact(&mut self) -> (r: Option<Compaction>)
        requires
            old(self).wf(),
        ensures
            final(self).wf(),
            r is None <==> (old(self).active() > u64::MAX - 2
                || span_end(positions(old(self).entries()), old(self).entries().len() as int) > u64::MAX),
            r is None ==> *final(self) == *old(self),
            r matches Some(c) ==> {
                &&& c.merge_file == old(self).active() + 1
                &&& c.next_file == old(self).active() + 2
                &&& final(self).active() == c.next_file
                &&& final(self).end() == 0
                &&& final(self).stale() == 0
                &&& final(self).contents() == old(self).contents()
                &&& final(self).history() == live_puts(old(self).entries(), old(self).contents())
                &&& final(self).history() == live_puts(final(self).entries(), final(self).contents())
                &&& final(self).index_map().dom() == old(self).index_map().dom()
                &&& forall|j: int| 0 <= j < final(self).entries().len() ==>
                    old(self).index_map().contains_key(#[trigger] final(self).entries()[j].0)
                    && c.sources@[j] == old(self).index_map()[final(self).entries()[j].0]
                &&& c.sources@ == positions(old(self).entries())
                &&& c.merge_len == span_end(c.sources@, c.sources@.len() as int)
                &&& final(self).entries().len() == old(self).entries().len()
                &&& forall|j: int| 0 <= j < final(self).entries().len() ==> #[trigger] final(self).entries()[j]
                    == (old(self).entries()[j].0, Pos {
                        file_id: c.merge_file,
                        offset: span_end(c.sources@, j) as u64,
                        length: c.sources@[j].length,
                    })
            },
    {
        let n = self.index.len();
        let ghost srcs = positions(self.entries());
        assert(srcs.len() == n);
        if self.curr_file_num > u64::MAX - 2 {
            return None;
        }
        let mut total: u64 = 0;
        let mut i: usize = 0;
        while i < n
            invariant
                self.wf(),
                *self == *old(self),
                n == self.index@.len(),
                srcs == positions(self.entries()),
                i <= n,
                total == span_end(srcs, i as int),
            decreases n - i,
        {
            let l = self.index[i].1.length;
            assert(srcs[i as int] == self.index@[i as int].1);
            if l > u64::MAX - total {
                proof {
                    lemma_span_end_mono(srcs, i as int + 1, n as int);
                }
                return None;
            }
            total = total + l;
            i = i + 1;
        }
        let merge = self.curr_file_num + 1;
        let mut new_index: Vec<(String, Pos)> = Vec::new();
        let mut sources: Vec<Pos> = Vec::new();
        let ghost mut new_map: Map<Seq<char>, Pos> = Map::empty();
        let ghost mut new_records: Map<(u64, u64), Op> = Map::empty();
        let ghost mut new_hist: Seq<Op> = Seq::empty();
        let mut off: u64 = 0;
        i = 0;
        assert(contents_of(new_map, new_records) =~= Map::empty());
        while i < n
            invariant
                self.wf(),
                n == self.index@.len(),
                srcs == positions(self.entries()),
                i <= n,
                span_end(srcs, n as int) <= u64::MAX,
                off == span_end(srcs, i as int),
                sources@ == srcs.take(i as int),
                new_index@.len() == i,
                forall|j: int| 0 <= j < i ==> (#[trigger] new_index@[j]).0@ == self.index@[j].0@
                    && new_index@[j].1 == (Pos {
                        file_id: merge,
                        offset: span_end(srcs, j) as u64,
                        length: srcs[j].length,
                    }),
                forall|j: int| 0 <= j < i ==> new_records.contains_key(loc(#[trigger] new_index@[j].1))
                    && new_records[loc(new_index@[j].1)] == self.records@[loc(self.index@[j].1)],
                entries_match(new_index@, new_map),
                forall|k: Seq<char>| #[trigger] new_map.contains_key(k) ==> new_map[k].length > 0
                    && new_map[k].length == encoding(new_records[loc(new_map[k])]).len(),
                forall|l: (u64, u64)| #[trigger] new_records.contains_key(l) ==> l.0 == merge && l.1 < off,
                replay(new_hist) == contents_of(new_map, new_records),
                new_hist == live_puts(self.entries(), contents_of(self.map@, self.records@)).take(i as int),
            decreases n - i,
        {
            let key = self.index[i].0.clone();
            let p = self.index[i].1;
            assert(srcs[i as int] == p);
            assert(self.map@.contains_key(self.index@[i as int].0@));
            proof {
                lemma_span_end_mono(srcs, i as int + 1, n as int);
            }
            let np = Pos { file_id: merge, offset: off, length: p.length };
            let ghost op = self.records@[loc(p)];
            assert(op == live_puts(self.entries(), contents_of(self.map@, self.records@))[i as int]);
            let ghost prev_map = new_map;
            let ghost prev_records = new_records;
            let ghost prev_index = new_index@;
            let ghost prev_hist = new_hist;
            proof {
                assert(!new_map.contains_key(key@)) by {
                    if new_map.contains_key(key@) {
                        let j = choose|j: int| 0 <= j < new_index@.len() && new_index@[j].0@ == key@;
                        assert(self.index@[j].0@ == self.index@[i as int].0@);
                    }
                }
                new_map = new_map.insert(key@, np);
                new_records = new_records.insert(loc(np), op);
                new_hist = new_hist.push(op);
                assert(new_hist.drop_last() =~= prev_hist);
                assert(new_hist =~= live_puts(self.entries(), contents_of(self.map@, self.records@)).take(i as int + 1));
            }
            new_index.push((key, np));
            sources.push(p);
            off = off + p.length;
            proof {
                assert(sources@ =~= srcs.take(i as int + 1));
                assert forall|kk: Seq<char>| #[trigger] new_map.contains_key(kk) implies exists|j: int|
                    0 <= j < new_index@.len() && new_index@[j].0@ == kk by {
                    if kk != key@ {
                        let j = choose|j: int| 0 <= j < prev_index.len() && prev_index[j].0@ == kk;
                        assert(new_index@[j].0@ == kk);
                    } else {
                        assert(new_index@[i as int].0@ == kk);
                    }
                }
                assert forall|a: int, b: int| 0 <= a < b < new_index@.len() implies
                    #[trigger] new_index@[a].0@ != #[trigger] new_index@[b].0@ by {
                    if b == i {
                        assert(prev_map.contains_key(prev_index[a].0@));
                    } else {
                        assert(self.index@[a].0@ != self.index@[b].0@);
                    }
                }
                assert(contents_of(new_map, new_records) =~= contents_of(prev_map, prev_records).insert(key@, op_value(op)));
            }
            i = i + 1;
        }
        proof {
            assert forall|k: Seq<char>| new_map.contains_key(k) <==> self.map@.contains_key(k) by {
                if self.map@.contains_key(k) {
                    let j = choose|j: int| 0 <= j < self.index@.len() && self.index@[j].0@ == k;
                    assert(new_map.contains_key(new_index@[j].0@));
                }
                if new_map.contains_key(k) {
                    let j = choose|j: int| 0 <= j < new_index@.len() && new_index@[j].0@ == k;
                    assert(self.map@.contains_key(self.index@[j].0@));
                }
            }
            assert forall|k: Seq<char>| #[trigger] new_map.contains_key(k) implies
                new_records.contains_key(loc(new_map[k]))
                && new_records[loc(new_map[k])] == self.records@[loc(self.map@[k])] by {
                let j = choose|j: int| 0 <= j < new_index@.len() && new_index@[j].0@ == k;
                assert(self.map@.contains_key(self.index@[j].0@));
            }
            assert(contents_of(new_map, new_records) =~= contents_of(self.map@, self.records@));
            assert(sources@ =~= srcs);
            assert(new_hist =~= live_puts(self.entries(), contents_of(self.map@, self.records@)));
            assert(new_map.dom() =~= self.map@.dom());
            assert forall|j: int| 0 <= j < new_index@.len() implies
                self.map@.contains_key(#[trigger] new_index@[j].0@) && srcs[j] == self.map@[new_index@[j].0@] by {
                assert(self.map@.contains_key(self.index@[j].0@));
            }
        }
        self.index = new_index;
        self.map = Ghost(new_map);
        self.records = Ghost(new_records);
        self.history = Ghost(new_hist);
        self.curr_file_num = merge + 1;
        self.curr_writer = BufWriterWithPos::new(0);
        self.useless_size = 0;
        assert(live_puts(self.entries(), self.contents()) =~= live_puts(old(self).entries(), old(self).contents()));
        Some(Compaction { merge_file: merge, sources, merge_len: off, next_file: merge + 1 })
    }

    /// Compacts where the stale bytes exceed the threshold.
    fn maybe_compact(&mut self) -> (r: Option<Compaction>)
        requires
            old(self).wf(),
        ensures
            final(self).wf(),
            final(self).contents() == old(self).contents(),
            trigger_outcome(final(self), r, old(self).stale() as int, old(self).active(), old(self).end(),
                old(self).index_map(), old(self).history()),
    {
        if self.useless_size > MAX_USELESS_SIZE {
            let r = self.compact();
            proof {
                if r is Some {
                    let c = r->Some_0;
                    assert forall|j: int| 0 <= j < self.entries().len() implies {
                        &&& old(self).index_map().contains_key((#[trigger] self.entries()[j]).0)
                        &&& c.sources@[j] == old(self).index_map()[self.entries()[j].0]
                        &&& self.entries()[j].1 == (Pos {
                            file_id: c.merge_file,
                            offset: span_end(c.sources@, j) as u64,
                            length: c.sources@[j].length,
                        })
                    } by {
                        assert(c.sources@[j] == positions(old(self).entries())[j]);
                    }
                }
            }
            r
        } else {
            None
        }
    }

    /// Rebuilds the store from its log, then compacts where the recovered
    /// stale bytes exceed the threshold. `log` holds every record of every
    /// segment, in order of generation and offset, with its location; the
    /// active segment is generation `active`, whose current end is `end`.
    /// Where a compaction ran, the caller carries out the plan returned.
    pub fn open(log: Vec<(Pos, Command)>, active: u64, end: u64) -> (r: (KvStore, Option<Compaction>))
        requires
            forall|i: int| 0 <= i < log@.len() ==> (#[trigger] log@[i]).0.length > 0,
            forall|i: int| 0 <= i < log@.len() ==> (#[trigger] log@[i]).0.length == encoding(log@[i].1@).len(),
            forall|i: int| 0 <= i < log@.len() ==> (#[trigger] log@[i]).0.file_id < active
                || (log@[i].0.file_id == active && log@[i].0.offset < end),
            forall|i: int| 0 < i < log@.len() ==> loc_lt(loc(log@[i - 1].0), loc(#[trigger] log@[i].0)),
        ensures
            r.0.wf(),
            r.0.contents() == replay(log_ops(log_view(log@))),
            trigger_outcome(&r.0, r.1, recover_stale(log_view(log@)), active, end,
                recover_index(log_view(log@)), log_ops(log_view(log@))),
    {
        let mut s = KvStore::recover(log, active, end);
        let c = s.maybe_compact();
        (s, c)
    }

    /// Encodes the `Set` record of `key` and `value` for the caller to append
    /// to the active segment. Fails with `Io`, where the segment's offsets
    /// would overflow.
    pub fn prepare_set(&self, key: &String, value: &String) -> (r: Result<Vec<u8>>)
        ensures
            r is Ok <==> self.end() + encoding(Op::Put(key@, value@)).len() <= u64::MAX,
            r matches Ok(b) ==> b@ == encoding(Op::Put(key@, value@)),
            r matches Err(e) ==> e is Io,
    {
        let data = encode(&Command::Put(key.clone(), value.clone()));
        if data.len() as u64 > u64::MAX - self.curr_writer.get_pos() {
            return Err(KvStoreError::Io(position_overflow()));
        }
        Ok(data)
    }

    /// Records the `Set` of `key` to `value` once the caller has appended and
    /// flushed `record`, then compacts where the stale bytes exceed the
    /// threshold; the caller carries out the plan returned.
    pub fn commit_set(&mut self, key: String, value: String, record: &[u8]) -> (r: Option<Compaction>)
        requires
            old(self).wf(),
            record@ == encoding(Op::Put(key@, value@)),
            old(self).end() + record@.len() <= u64::MAX,
        ensures
            final(self).wf(),
            final(self).contents() == old(self).contents().insert(key@, value@),
            trigger_outcome(
                final(self),
                r,
                sat_add(old(self).stale() as int, displaced_len(old(self).index_map(), key@)),
                old(self).active(),
                (old(self).end() + record@.len()) as u64,
                old(self).index_map().insert(key@, new_pos(old(self), record@.len())),
                old(self).history().push(Op::Put(key@, value@)),
            ),
    {
        self.put_record(key, value, record);
        self.maybe_compact()
    }

    /// Sets `key` to `value`: prepares the record and commits it. Returns the
    /// record, which the caller appends to the active segment and flushes
    /// before it carries out the compaction plan, if any.
    pub fn set(&mut self, key: String, value: String) -> (r: Result<(Vec<u8>, Option<Compaction>)>)
        requires
            old(self).wf(),
        ensures
            final(self).wf(),
            r is Ok <==> old(self).end() + encoding(Op::Put(key@, value@)).len() <= u64::MAX,
            r matches Err(e) ==> e is Io && *final(self) == *old(self),
            r matches Ok((b, c)) ==> {
                &&& b@ == encoding(Op::Put(key@, value@))
                &&& final(self).contents() == old(self).contents().insert(key@, value@)
                &&& trigger_outcome(
                    final(self),
                    c,
                    sat_add(old(self).stale() as int, displaced_len(old(self).index_map(), key@)),
                    old(self).active(),
                    (old(self).end() + b@.len()) as u64,
                    old(self).index_map().insert(key@, new_pos(old(self), b@.len())),
                    old(self).history().push(Op::Put(key@, value@)),
                )
            },
    {
        let record = self.prepare_set(&key, &value)?;
        let c = self.commit_set(key, value, record.as_slice());
        Ok((record, c))
    }

    /// Encodes the `Rm` record of `key` for the caller to append to the
    /// active segment. Fails with `KeyNotFound` where `key` is not present,
    /// and with `Io` where the segment's offsets would overflow.
    pub fn prepare_remove(&self, key: &String) -> (r: Result<Vec<u8>>)
        requires
            self.wf(),
        ensures
            (r is Err && r->Err_0 is KeyNotFound) <==> !self.contents().contains_key(key@),
            r is Ok <==> self.contents().contains_key(key@)
                && self.end() + encoding(Op::Del(key@)).len() <= u64::MAX,
            r matches Ok(b) ==> b@ == encoding(Op::Del(key@)),
            r matches Err(e) ==> e is KeyNotFound || e is Io,
    {
        if self.find(key).is_none() {
            return Err(KvStoreError::KeyNotFound);
        }
        let data = encode(&Command::Rm(key.clone()));
        if data.len() as u64 > u64::MAX - self.curr_writer.get_pos() {
            return Err(KvStoreError::Io(position_overflow()));
        }
        Ok(data)
    }

    /// Records the removal of the present `key` once the caller has appended
    /// and flushed `record`, then compacts where the stale bytes exceed the
    /// threshold; the caller carries out the plan returned.
    pub fn commit_remove(&mut self, key: String, record: &[u8]) -> (r: Option<Compaction>)
        requires
            old(self).wf(),
            old(self).contents().contains_key(key@),
            record@ == encoding(Op::Del(key@)),
            old(self).end() + record@.len() <= u64::MAX,
        ensures
            final(self).wf(),
            final(self).contents() == old(self).contents().remove(key@),
            trigger_outcome(
                final(self),
                r,
                sat_add(sat_add(old(self).stale() as int, old(self).index_map()[key@].length as int), record@.len() as int),
                old(self).active(),
                (old(self).end() + record@.len()) as u64,
                old(self).index_map().remove(key@),
                old(self).history().push(Op::Del(key@)),
            ),
    {
        self.del_record(key, record);
        self.maybe_compact()
    }

    /// Removes `key`: prepares the record and commits it. Fails with
    /// `KeyNotFound`, and changes nothing, where `key` is not present.
    /// Returns the record, which the caller appends to the active segment and
    /// flushes before it carries out the compaction plan, if any.
    pub fn remove(&mut self, key: String) -> (r: Result<(Vec<u8>, Option<Compaction>)>)
        requires
            old(self).wf(),
        ensures
            final(self).wf(),
            (r is Err && r->Err_0 is KeyNotFound) <==> !old(self).contents().contains_key(key@),
            r is Ok <==> old(self).contents().contains_key(key@)
                && old(self).end() + encoding(Op::Del(key@)).len() <= u64::MAX,
            r matches Err(e) ==> (e is KeyNotFound || e is Io) && *final(self) == *old(self),
            r matches Ok((b, c)) ==> {
                &&& b@ == encoding(Op::Del(key@))
                &&& final(self).contents() == old(self).contents().remove(key@)
                &&& trigger_outcome(
                    final(self),
                    c,
                    sat_add(sat_add(old(self).stale() as int, old(self).index_map()[key@].length as int), b@.len() as int),
                    old(self).active(),
                    (old(self).end() + b@.len()) as u64,
                    old(self).index_map().remove(key@),
                    old(self).history().push(Op::Del(key@)),
                )
            },
    {
        let record = self.prepare_remove(&key)?;
        let c = self.commit_remove(key, record.as_slice());
        Ok((record, c))
    }

    /// Whether the stale bytes exceed the compaction threshold.
    pub fn needs_compaction(&self) -> (r: bool)
        ensures
            r == (self.stale() > MAX_USELESS_SIZE),
    {
        self.useless_size > MAX_USELESS_SIZE
    }

    /// The stale-bytes counter.
    pub fn stale_bytes(&self) -> (r: u64)
        ensures
            r == self.stale(),
    {
        self.useless_size
    }

    /// The offset at which the next record lands in the active segment.
    pub fn end_pos(&self) -> (r: u64)
        ensures
            r == self.end(),
    {
        self.curr_writer.get_pos()
    }

    /// The generation of the active segment, the one that appends go to.
    pub fn active_file(&self) -> (r: u64)
        ensures
            r == self.active(),
    {
        self.curr_file_num
    }

    /// The location of `key`'s latest `Set` record, if `key` is present; the
    /// record there sets `key` to its current value.
    pub fn locate(&self, key: &String) -> (r: Option<Pos>)
        requires
            self.wf(),
        ensures
            r is Some <==> self.contents().contains_key(key@),
            r matches Some(p) ==> p == self.index_map()[key@]
                && self.record_at(p) == Some(Op::Put(key@, self.contents()[key@])),
    {
        match self.find(key) {
            Some(i) => {
                let p = self.index[i].1;
                assert(self.map@.contains_key(self.index@[i as int].0@));
                Some(p)
            },
            None => None,
        }
    }

    /// The value that a record read back from an index location carries: a
    /// `Set` gives its value, anything else is corruption.
    pub fn value_of(cmd: Command) -> (r: Result<String>)
        ensures
            cmd@ is Put ==> r is Ok && r->Ok_0@ == op_value(cmd@),
            cmd@ is Del ==> r is Err && r->Err_0 is UnKnowCommandType,
    {
        match cmd {
            Command::Put(_, v) => Ok(v),
            Command::Rm(_) => Err(KvStoreError::UnKnowCommandType),
        }
    }

    /// Appends an encoded record to the active segment's writer and records
    /// it in the ghost log. Returns its location.
    fn append(&mut self, op: Ghost<Op>, data: &[u8]) -> (p: Pos)
        requires
            old(self).wf(),
            data@ == encoding(op@),
            old(self).curr_writer.pos() + data@.len() <= u64::MAX,
        ensures
            p == (Pos { file_id: old(self).curr_file_num, offset: old(self).curr_writer.pos(), length: data@.len() as u64 }),
            final(self).curr_writer.pos() == old(self).curr_writer.pos() + data@.len(),
            final(self).curr_writer.pending() == Seq::<u8>::empty(),
            final(self).records@ == old(self).records@.insert(loc(p), op@),
            final(self).history@ == old(self).history@.push(op@),
            final(self).index == old(self).index,
            final(self).map == old(self).map,
            final(self).curr_file_num == old(self).curr_file_num,
            final(self).useless_size == old(self).useless_size,
    {
        let offset = self.curr_writer.get_pos();
        self.curr_writer.write(data);
        let _ = self.curr_writer.flush();
        let p = Pos { file_id: self.curr_file_num, offset, length: data.len() as u64 };
        self.records = Ghost(self.records@.insert(loc(p), op@));
        self.history = Ghost(self.history@.push(op@));
        p
    }

    /// Records a `Set` whose encoding the caller has appended.
    fn put_record(&mut self, key: String, value: String, record: &[u8])
        requires
            old(self).wf(),
            record@ == encoding(Op::Put(key@, value@)),
            old(self).end() + record@.len() <= u64::MAX,
        ensures
            final(self).wf(),
            final(self).contents() == old(self).contents().insert(key@, value@),
            final(self).index_map() == old(self).index_map().insert(key@, new_pos(old(self), record@.len())),
            final(self).stale() == sat_add(old(self).stale() as int, displaced_len(old(self).index_map(), key@)),
            final(self).history() == old(self).history().push(Op::Put(key@, value@)),
            final(self).active() == old(self).active(),
            final(self).end() == old(self).end() + record@.len(),
    {
        let ghost op = Op::Put(key@, value@);
        let ghost old_contents = contents_of(self.map@, self.records@);
        let p = self.append(Ghost(op), record);
        assert(put_open().len() == 8);
        let d = self.put_entry(key, p);
        self.useless_size = saturating_add(self.useless_size, d);
        proof {
            assert forall|kk: Seq<char>| #[trigger] self.map@.contains_key(kk) && kk != op.key() implies
                loc(self.map@[kk]) != loc(p) by {
                assert(old(self).records@.contains_key(loc(old(self).map@[kk])));
            }
            assert(contents_of(self.map@, self.records@) =~= old_contents.insert(op.key(), op_value(op)));
            assert(self.history@.drop_last() =~= old(self).history@);
            assert(replay(self.history@) == contents_of(self.map@, self.records@));
            assert forall|k: Seq<char>| #[trigger] self.map@.contains_key(k) implies {
                &&& self.records@.contains_key(loc(self.map@[k]))
                &&& self.records@[loc(self.map@[k])] == Op::Put(k, op_value(self.records@[loc(self.map@[k])]))
                &&& self.map@[k].length > 0
                &&& self.map@[k].length == encoding(self.records@[loc(self.map@[k])]).len()
            &&& self.map@[k].length == encoding(self.records@[loc(self.map@[k])]).len()
            } by {
                if k != op.key() {
                    assert(old(self).map@.contains_key(k));
                }
            }
        }
    }

    /// Records an `Rm` of a present key whose encoding the caller has appended.
    fn del_record(&mut self, key: String, record: &[u8])
        requires
            old(self).wf(),
            old(self).contents().contains_key(key@),
            record@ == encoding(Op::Del(key@)),
            old(self).end() + record@.len() <= u64::MAX,
        ensures
            final(self).wf(),
            final(self).contents() == old(self).contents().remove(key@),
            final(self).index_map() == old(self).index_map().remove(key@),
            final(self).stale() == sat_add(
                sat_add(old(self).stale() as int, old(self).index_map()[key@].length as int),
                record@.len() as int,
            ),
            final(self).history() == old(self).history().push(Op::Del(key@)),
            final(self).active() == old(self).active(),
            final(self).end() == old(self).end() + record@.len(),
    {
        let ghost op = Op::Del(key@);
        let ghost old_contents = contents_of(self.map@, self.records@);
        let p = self.append(Ghost(op), record);
        let d = self.remove_entry(&key);
        let d = match d {
            Some(d) => d,
            None => 0,
        };
        self.useless_size = saturating_add(self.useless_size, d);
        self.useless_size = saturating_add(self.useless_size, p.length);
        proof {
            assert forall|kk: Seq<char>| #[trigger] self.map@.contains_key(kk) implies
                loc(self.map@[kk]) != loc(p) by {
                assert(old(self).records@.contains_key(loc(old(self).map@[kk])));
            }
            assert(contents_of(self.map@, self.records@) =~= old_contents.remove(op.key()));
            assert(self.history@.drop_last() =~= old(self).history@);
            assert(replay(self.history@) == contents_of(self.map@, self.records@));
            assert forall|k: Seq<char>| #[trigger] self.map@.contains_key(k) implies {
                &&& self.records@.contains_key(loc(self.map@[k]))
                &&& self.records@[loc(self.map@[k])] == Op::Put(k, op_value(self.records@[loc(self.map@[k])]))
                &&& self.map@[k].length > 0
                &&& self.map@[k].length == encoding(self.records@[loc(self.map@[k])]).len()
            &&& self.map@[k].length == encoding(self.records@[loc(self.map@[k])]).len()
            } by {
                if k != op.key() {
                    assert(old(self).map@.contains_key(k));
                }
            }
        }
    }

    /// Index of `key` among the entries, if present.
    fn find(&self, key: &String) -> (r: Option<usize>)
        requires
            entries_match(self.index@, self.map@),
        ensures
            r matches Some(i) ==> i < self.index@.len() && self.index@[i as int].0@ == key@,
            r is None ==> !self.map@.contains_key(key@),
    {
        let mut i: usize = 0;
        while i < self.index.len()
            invariant
                i <= self.index@.len(),
                entries_match(self.index@, self.map@),
                forall|j: int| 0 <= j < i ==> self.index@[j].0@ != key@,
            decreases self.index@.len() - i,
        {
            if self.index[i].0 == *key {
                return Some(i);
            }
            i = i + 1;
        }
        None
    }

    /// Points `key` at `p`; returns the length of the entry it displaced, or 0.
    fn put_entry(&mut self, key: String, p: Pos) -> (displaced: u64)
        requires
            entries_match(old(self).index@, old(self).map@),
        ensures
            entries_match(final(self).index@, final(self).map@),
            final(self).map@ == old(self).map@.insert(key@, p),
            displaced == (if old(self).map@.contains_key(key@) { old(self).map@[key@].length } else { 0 }),
            final(self).curr_file_num == old(self).curr_file_num,
            final(self).useless_size == old(self).useless_size,
            final(self).curr_writer == old(self).curr_writer,
            final(self).history == old(self).history,
            final(self).records == old(self).records,
    {
        let ghost k = key@;
        match self.find(&key) {
            Some(i) => {
                let d = self.index[i].1.length;
                self.index.set(i, (key, p));
                self.map = Ghost(self.map@.insert(k, p));
                assert forall|kk: Seq<char>| #[trigger] self.map@.contains_key(kk) implies exists|j: int|
                    0 <= j < self.index@.len() && self.index@[j].0@ == kk by {
                    if kk != k {
                        let j = choose|j: int| 0 <= j < old(self).index@.len() && old(self).index@[j].0@ == kk;
                        assert(self.index@[j].0@ == kk);
                    } else {
                        assert(self.index@[i as int].0@ == kk);
                    }
                }
                d
            },
            None => {
                self.index.push((key, p));
                self.map = Ghost(self.map@.insert(k, p));
                let ghost n = old(self).index@.len() as int;
                assert forall|kk: Seq<char>| #[trigger] self.map@.contains_key(kk) implies exists|j: int|
                    0 <= j < self.index@.len() && self.index@[j].0@ == kk by {
                    if kk != k {
                        let j = choose|j: int| 0 <= j < old(self).index@.len() && old(self).index@[j].0@ == kk;
                        assert(self.index@[j].0@ == kk);
                    } else {
                        assert(self.index@[n].0@ == kk);
                    }
                }
                assert forall|a: int, b: int| 0 <= a < b < self.index@.len() implies
                    #[trigger] self.index@[a].0@ != #[trigger] self.index@[b].0@ by {
                    if b == n {
                        assert(old(self).map@.contains_key(old(self).index@[a].0@));
                    }
                }
                0
            },
        }
    }

    /// Drops the entry of `key`; returns the length of the entry it held.
    fn remove_entry(&mut self, key: &String) -> (displaced: Option<u64>)
        requires
            entries_match(old(self).index@, old(self).map@),
        ensures
            entries_match(final(self).index@, final(self).map@),
            final(self).map@ == old(self).map@.remove(key@),
            displaced == (if old(self).map@.contains_key(key@) { Some(old(self).map@[key@].length) } else { None::<u64> }),
            final(self).curr_file_num == old(self).curr_file_num,
            final(self).useless_size == old(self).useless_size,
            final(self).curr_writer == old(self).curr_writer,
            final(self).history == old(self).history,
            final(self).records == old(self).records,
    {
        match self.find(key) {
            Some(i) => {
                let d = self.index[i].1.length;
                self.index.remove(i);
                self.map = Ghost(self.map@.remove(key@));
                let ghost o = old(self).index@;
                assert forall|kk: Seq<char>| #[trigger] self.map@.contains_key(kk) implies exists|j: int|
                    0 <= j < self.index@.len() && self.index@[j].0@ == kk by {
                    let j = choose|j: int| 0 <= j < o.len() && o[j].0@ == kk;
                    if j < i {
                        assert(self.index@[j].0@ == kk);
                    } else {
                        assert(j != i);
                        assert(self.index@[j - 1].0@ == kk);
                    }
                }
                assert forall|a: int| 0 <= a < self.index@.len() implies
                    #[trigger] self.map@.contains_key(self.index@[a].0@) && self.map@[self.index@[a].0@] == self.index@[a].1 by {
                    if a < i {
                        assert(self.index@[a] == o[a]);
                        assert(o[a].0@ != o[i as int].0@);
                    } else {
                        assert(self.index@[a] == o[a + 1]);
                        assert(o[a + 1].0@ != o[i as int].0@);
                    }
                }
                assert forall|a: int, b: int| 0 <= a < b < self.index@.len() implies
                    #[trigger] self.index@[a].0@ != #[trigger] self.index@[b].0@ by {
                    let a2 = if a < i { a } else { a + 1 };
                    let b2 = if b < i { b } else { b + 1 };
                    assert(self.index@[a] == o[a2]);
                    assert(self.index@[b] == o[b2]);
                }
                Some(d)
            },
            None => {
                assert(self.map@.remove(key@) =~= self.map@);
                None
            },
        }
    }
}


/// Replaying a log gives each key the value of its last `Set` that no later
/// command on the same key follows, and holds no other key.
pub proof fn lemma_replay_last_write(h: Seq<Op>, k: Seq<char>)
    ensures
        forall|i: int| 0 <= i < h.len() && #[trigger] h[i] is Put && h[i].key() == k
            && (forall|j: int| i < j < h.len() ==> (#[trigger] h[j]).key() != k)
            ==> replay(h).contains_key(k) && replay(h)[k] == op_value(h[i]),
        replay(h).contains_key(k) ==> exists|i: int| 0 <= i < h.len() && #[trigger] h[i] == Op::Put(k, replay(h)[k])
            && (forall|j: int| i < j < h.len() ==> (#[trigger] h[j]).key() != k),
    decreases h.len(),
{
    if h.len() > 0 {
        let t = h.drop_last();
        lemma_replay_last_write(t, k);
        let n = h.len() - 1;
        assert forall|i: int| 0 <= i < h.len() && #[trigger] h[i] is Put && h[i].key() == k
            && (forall|j: int| i < j < h.len() ==> (#[trigger] h[j]).key() != k)
            implies replay(h).contains_key(k) && replay(h)[k] == op_value(h[i]) by {
            if i < n {
                assert(h[n].key() != k);
                assert(t[i] == h[i]);
                assert forall|j: int| i < j < t.len() implies (#[trigger] t[j]).key() != k by {
                    assert(t[j] == h[j]);
                }
            }
        }
        if replay(h).contains_key(k) {
            if h[n].key() == k {
                assert(h[n] == Op::Put(k, replay(h)[k]));
            } else {
                let i = choose|i: int| 0 <= i < t.len() && #[trigger] t[i] == Op::Put(k, replay(t)[k])
                    && (forall|j: int| i < j < t.len() ==> (#[trigger] t[j]).key() != k);
                assert(h[i] == t[i]);
                assert forall|j: int| i < j < h.len() implies (#[trigger] h[j]).key() != k by {
                    if j < n {
                        assert(t[j] == h[j]);
                    }
                }
            }
        }
    }
}

/// After any log, a run of `Set`s on one key leaves that key with the last
/// value set.
pub proof fn lemma_repeated_sets(h: Seq<Op>, k: Seq<char>, vs: Seq<Seq<char>>)
    requires
        vs.len() > 0,
    ensures
        replay(h + vs.map_values(|v: Seq<char>| Op::Put(k, v))).contains_key(k),
        replay(h + vs.map_values(|v: Seq<char>| Op::Put(k, v)))[k] == vs.last(),
{
    let l = h + vs.map_values(|v: Seq<char>| Op::Put(k, v));
    assert(l.last() == Op::Put(k, vs.last()));
}

impl KvStore {
    /// Reopening a store on its log, as it stands on disk, restores the same
    /// key-value map.
    pub proof fn lemma_reopen_restores_contents(&self, log: Seq<(Pos, Op)>)
        requires
            self.wf(),
            log_ops(log) == self.history(),
        ensures
            replay(log_ops(log)) == self.contents(),
    {
    }

    /// Each index entry's length is the encoded size of its key's live `Set`
    /// record, so the live records laid end to end, as compaction writes
    /// them, take exactly the sum of those encoded sizes.
    pub proof fn lemma_live_bytes(&self)
        requires
            self.wf(),
        ensures
            span_end(positions(self.entries()), self.entries().len() as int)
                == live_size(self.entries(), self.contents(), self.entries().len() as int),
    {
        self.lemma_live_bytes_upto(self.entries().len() as int);
    }

    proof fn lemma_live_bytes_upto(&self, j: int)
        requires
            self.wf(),
            0 <= j <= self.entries().len(),
        ensures
            span_end(positions(self.entries()), j) == live_size(self.entries(), self.contents(), j),
        decreases j,
    {
        if j > 0 {
            self.lemma_live_bytes_upto(j - 1);
            let k = self.index@[j - 1].0@;
            assert(self.map@.contains_key(k));
            assert(self.entries()[j - 1] == (k, self.index@[j - 1].1));
        }
    }

    /// A key that no `Set` in the log leaves live, because the log never
    /// sets it or removes it after each `Set`, is not present; `remove` on it
    /// fails with `KeyNotFound`.
    pub proof fn lemma_absent_after_remove(&self, k: Seq<char>)
        requires
            self.wf(),
            forall|i: int| 0 <= i < self.history().len() && #[trigger] self.history()[i] is Put
                && self.history()[i].key() == k ==> exists|j: int| i < j < self.history().len()
                && self.history()[j] == Op::Del(k),
        ensures
            !self.contents().contains_key(k),
    {
        let h = self.history();
        lemma_replay_last_write(h, k);
        if replay(h).contains_key(k) {
            let i = choose|i: int| 0 <= i < h.len() && #[trigger] h[i] == Op::Put(k, replay(h)[k])
                && (forall|j: int| i < j < h.len() ==> (#[trigger] h[j]).key() != k);
            assert(h[i] is Put && h[i].key() == k);
            let j = choose|j: int| i < j < h.len() && h[j] == Op::Del(k);
            assert(h[j].key() == k);
        }
    }

    /// The live keys are exactly the keys of the index.
    pub proof fn lemma_contents_domain(&self)
        requires
            self.wf(),
        ensures
            self.contents().dom() == self.index_map().dom(),
    {
        assert(self.contents().dom() =~= self.index_map().dom());
    }
}

} // verus!
