use vstd::prelude::*;

use crate::catalog::{
    from_bound, has_generation, lemma_from_bound_keeps, older_than, remaining_generations,
    stale_generations,
};
use crate::codec::Span;
use crate::entry::LogEntry;
use crate::error::KvsError;
use crate::index::{consistent, relocated, total_len, CommandPos, Index};

verus! {

/// Stale bytes (1 MiB) above which a write compacts the log.
pub const COMPACTION_THRESHOLD: u64 = 1048576;

/// A record met while replaying a log file: the command and where it lies.
pub struct LoggedEntry {
    pub entry: LogEntry,
    pub span: Span,
}

/// The records of one log file, in file order.
pub struct GenerationLog {
    pub generation: u64,
    pub records: Vec<LoggedEntry>,
}

/// What the store's bookkeeping stands for: where the latest record of each
/// key lies, the generation that takes new records, and how many bytes of
/// the log are stale, and the generations whose files are on disk.
pub struct EngineView {
    pub index: Map<Seq<char>, CommandPos>,
    pub generation: u64,
    pub uncompacted: u64,
    pub on_disk: Seq<u64>,
}

/// `a + b`, held at `u64::MAX`: past the threshold, the count only says
/// that compaction is due.
pub open spec fn stale_add(a: u64, b: u64) -> u64 {
    if a + b > u64::MAX {
        u64::MAX
    } else {
        (a + b) as u64
    }
}

impl EngineView {
    /// `key` now lies at `pos`; the record it lay at before is stale.
    pub open spec fn with_put(self, key: Seq<char>, pos: CommandPos) -> EngineView {
        EngineView {
            index: self.index.insert(key, pos),
            uncompacted: if self.index.contains_key(key) {
                stale_add(self.uncompacted, self.index[key].len)
            } else {
                self.uncompacted
            },
            ..self
        }
    }

    /// `key` is gone; the record it lay at is stale. Nothing changes for a
    /// key that is not there.
    pub open spec fn with_remove(self, key: Seq<char>) -> EngineView {
        if self.index.contains_key(key) {
            EngineView {
                index: self.index.remove(key),
                uncompacted: stale_add(self.uncompacted, self.index[key].len),
                ..self
            }
        } else {
            self
        }
    }

    /// The effect of one record of the log of `generation`.
    pub open spec fn replay_one(self, generation: u64, rec: LoggedEntry) -> EngineView {
        match rec.entry {
            LogEntry::Put { key, .. } => self.with_put(
                key@,
                CommandPos { generation, pos: rec.span.pos, len: rec.span.len },
            ),
            LogEntry::Remove { key } => self.with_remove(key@),
        }
    }

    /// The effect of the records of the log of `generation`, in file order.
    pub open spec fn replay(self, generation: u64, recs: Seq<LoggedEntry>) -> EngineView
        decreases recs.len(),
    {
        if recs.len() == 0 {
            self
        } else {
            self.replay(generation, recs.drop_last()).replay_one(generation, recs.last())
        }
    }

    /// Bookkeeping before any log file is read.
    pub open spec fn empty() -> EngineView {
        EngineView { index: Map::empty(), generation: 0, uncompacted: 0, on_disk: Seq::empty() }
    }

    /// The file of `generation` is on disk too.
    pub open spec fn with_file(self, generation: u64) -> EngineView {
        EngineView { on_disk: self.on_disk.push(generation), ..self }
    }

    /// The effect of reading the log files `logs`, in that order.
    pub open spec fn replay_logs(self, logs: Seq<GenerationLog>) -> EngineView
        decreases logs.len(),
    {
        if logs.len() == 0 {
            self
        } else {
            let g = logs.last().generation;
            self.replay_logs(logs.drop_last()).with_file(g).replay(g, logs.last().records@)
        }
    }

    /// The generation that a store opened on `logs` writes to: one above
    /// the last log's, or 1 when there is none.
    pub open spec fn next_generation(logs: Seq<GenerationLog>) -> u64 {
        if logs.len() == 0 {
            1
        } else {
            (logs.last().generation + 1) as u64
        }
    }

    /// Every key points into a file that is on disk.
    pub open spec fn files_cover_index(self) -> bool {
        forall|k: Seq<char>| #[trigger]
            self.index.contains_key(k) ==> self.on_disk.contains(self.index[k].generation)
    }

    pub open spec fn lookup(self, key: Seq<char>) -> Option<CommandPos> {
        if self.index.contains_key(key) {
            Some(self.index[key])
        } else {
            None
        }
    }
}

/// The store's bookkeeping, apart from its files: the index, the active
/// generation, the count of stale bytes and the generations whose files are
/// on disk. Each operation of the store asks it what to do and tells it what
/// was written.
pub struct Engine {
    index: Index,
    current_generation: u64,
    uncompacted: u64,
    on_disk: Vec<u64>,
}

impl View for Engine {
    type V = EngineView;

    closed spec fn view(&self) -> EngineView {
        EngineView {
            index: self.index@,
            generation: self.current_generation,
            uncompacted: self.uncompacted,
            on_disk: self.on_disk@,
        }
    }
}

impl Engine {
    closed spec fn wf_index(&self) -> bool {
        self.index.wf() && self@.files_cover_index()
    }

    /// The index is well formed, every key points into a file on disk, and
    /// so does the active generation.
    pub closed spec fn wf(&self) -> bool {
        self.wf_index() && self.on_disk@.contains(self.current_generation)
    }

    /// The places of the live records, in the order compaction copies them.
    pub closed spec fn layout(&self) -> Seq<CommandPos> {
        self.index.layout()
    }

    /// The live keys, in the order compaction copies their records.
    pub closed spec fn key_order(&self) -> Seq<Seq<char>> {
        self.index.key_order()
    }

    /// The `i`-th key of `key_order` lies at the `i`-th place of `layout`.
    pub proof fn lemma_consistent(&self)
        requires
            self.wf(),
        ensures
            consistent(self@.index, self.key_order(), self.layout()),
    {
        self.index.lemma_consistent();
    }

    /// Every key points into a file that is on disk, and the active
    /// generation's file is on disk too.
    pub proof fn lemma_files_cover_index(&self)
        requires
            self.wf(),
        ensures
            self@.files_cover_index(),
            self@.on_disk.contains(self@.generation),
    {
    }

    /// The generation whose file takes new records.
    pub fn current_generation(&self) -> (r: u64)
        ensures
            r == self@.generation,
    {
        self.current_generation
    }

    /// Bytes of the log held by records that no key points at any more.
    pub fn uncompacted(&self) -> (r: u64)
        ensures
            r == self@.uncompacted,
    {
        self.uncompacted
    }

    /// Whether the stale bytes call for a compaction.
    pub fn needs_compaction(&self) -> (r: bool)
        ensures
            r == (self@.uncompacted > COMPACTION_THRESHOLD),
    {
        self.uncompacted > COMPACTION_THRESHOLD
    }

    /// Where the latest record of `key` lies, if the store holds it.
    pub fn lookup(&self, key: &String) -> (r: Option<CommandPos>)
        requires
            self.wf(),
        ensures
            r == self@.lookup(key@),
    {
        self.index.get(key)
    }

    fn apply_put(&mut self, key: String, pos: CommandPos)
        requires
            old(self).wf_index(),
            old(self)@.on_disk.contains(pos.generation),
        ensures
            final(self).wf_index(),
            final(self).current_generation == old(self).current_generation,
            final(self)@ == old(self)@.with_put(key@, pos),
    {
        let ghost k0 = key@;
        if let Some(prev) = self.index.insert(key, pos) {
            self.uncompacted = self.uncompacted.saturating_add(prev.len);
        }
        assert forall|k: Seq<char>| #[trigger] self@.index.contains_key(k) implies self@.on_disk.contains(
            self@.index[k].generation,
        ) by {
            if k != k0 {
                assert(old(self)@.index.contains_key(k));
            }
        }
    }

    fn apply_remove(&mut self, key: &String) -> (r: bool)
        requires
            old(self).wf_index(),
        ensures
            final(self).wf_index(),
            final(self).current_generation == old(self).current_generation,
            final(self)@ == old(self)@.with_remove(key@),
            r == old(self)@.index.contains_key(key@),
    {
        match self.index.remove(key) {
            Some(prev) => {
                self.uncompacted = self.uncompacted.saturating_add(prev.len);
                assert forall|k: Seq<char>| #[trigger] self@.index.contains_key(k) implies self@.on_disk.contains(
                    self@.index[k].generation,
                ) by {
                    assert(old(self)@.index.contains_key(k));
                }
                true
            },
            None => {
                assert(old(self)@.index.remove(key@) =~= old(self)@.index);
                false
            },
        }
    }

    /// Rebuilds the index from the records of the log file of `generation`,
    /// read in file order: a `Put` points its key at its record, a `Remove`
    /// drops its key, and whatever a key pointed at before counts as stale.
    fn load(&mut self, generation: u64, records: &Vec<LoggedEntry>)
        requires
            old(self).wf_index(),
            old(self)@.on_disk.contains(generation),
        ensures
            final(self).wf_index(),
            final(self)@ == old(self)@.replay(generation, records@),
    {
        let mut i: usize = 0;
        while i < records.len()
            invariant
                self.wf_index(),
                self@.on_disk == old(self)@.on_disk,
                old(self)@.on_disk.contains(generation),
                0 <= i <= records@.len(),
                self@ == old(self)@.replay(generation, records@.take(i as int)),
            decreases records@.len() - i,
        {
            let rec = &records[i];
            assert(records@.take(i as int + 1).drop_last() == records@.take(i as int));
            match &rec.entry {
                LogEntry::Put { key, .. } => {
                    let pos = CommandPos { generation, pos: rec.span.pos, len: rec.span.len };
                    self.apply_put(key.clone(), pos);
                },
                LogEntry::Remove { key } => {
                    self.apply_remove(key);
                },
            }
            i = i + 1;
        }
        assert(records@.take(i as int) == records@);
    }

    /// Bookkeeping of a store opened on its log files, read in the order
    /// given (ascending generations, so that later records win). The store
    /// then writes to a fresh generation one above the last log's, or 1.
    /// `None` when no generation number is left above the last one.
    pub fn open(logs: &Vec<GenerationLog>) -> (r: Option<Engine>)
        ensures
            r is None <==> (logs@.len() > 0 && logs@.last().generation == u64::MAX),
            r matches Some(e) ==> e.wf() && e@ == (EngineView {
                generation: EngineView::next_generation(logs@),
                ..EngineView::empty().replay_logs(logs@).with_file(
                    EngineView::next_generation(logs@),
                )
            }),
    {
        let mut e = Engine {
            index: Index::new(),
            current_generation: 0,
            uncompacted: 0,
            on_disk: Vec::new(),
        };
        let mut i: usize = 0;
        while i < logs.len()
            invariant
                0 <= i <= logs@.len(),
                e.wf_index(),
                e@ == EngineView::empty().replay_logs(logs@.take(i as int)),
            decreases logs@.len() - i,
        {
            let log = &logs[i];
            assert(logs@.take(i as int + 1).drop_last() == logs@.take(i as int));
            assert(logs@.take(i as int + 1).last() == logs@[i as int]);
            let ghost before = e@;
            e.on_disk.push(log.generation);
            assert(e@.files_cover_index()) by {
                assert forall|k: Seq<char>| #[trigger] e@.index.contains_key(k) implies e@.on_disk.contains(
                    e@.index[k].generation,
                ) by {
                    let j = choose|j: int|
                        0 <= j < before.on_disk.len() && before.on_disk[j] == before.index[k].generation;
                    assert(e@.on_disk[j] == before.on_disk[j]);
                }
            }
            assert(e@.on_disk.last() == log.generation);
            e.load(log.generation, &log.records);
            i = i + 1;
        }
        assert(logs@.take(i as int) == logs@);
        let next = if logs.len() == 0 {
            1
        } else {
            let last = logs[logs.len() - 1].generation;
            if last == u64::MAX {
                return None;
            }
            last + 1
        };
        let ghost before = e@;
        e.on_disk.push(next);
        e.current_generation = next;
        assert(e@.on_disk.last() == next);
        assert(e@.files_cover_index()) by {
            assert forall|k: Seq<char>| #[trigger] e@.index.contains_key(k) implies e@.on_disk.contains(
                e@.index[k].generation,
            ) by {
                let j = choose|j: int|
                    0 <= j < before.on_disk.len() && before.on_disk[j] == before.index[k].generation;
                assert(e@.on_disk[j] == before.on_disk[j]);
            }
        }
        Some(e)
    }

    /// Records that a `Put` of `key` was appended to the active log at `pos`,
    /// `len` bytes long. Returns whether the store must now compact.
    pub fn record_set(&mut self, key: String, pos: u64, len: u64) -> (r: bool)
        requires
            old(self).wf(),
        ensures
            final(self).wf(),
            final(self)@ == old(self)@.with_put(
                key@,
                CommandPos { generation: old(self)@.generation, pos, len },
            ),
            r == (final(self)@.uncompacted > COMPACTION_THRESHOLD),
    {
        let cmd = CommandPos { generation: self.current_generation, pos, len };
        self.apply_put(key, cmd);
        self.uncompacted > COMPACTION_THRESHOLD
    }

    /// Checks that `key` can be removed, before its `Remove` is written.
    pub fn check_remove(&self, key: &String) -> (r: Result<(), KvsError>)
        requires
            self.wf(),
        ensures
            r is Ok <==> self@.index.contains_key(key@),
            r is Err ==> r matches Err(KvsError::KeyNotFound),
    {
        if self.index.get(key).is_some() {
            Ok(())
        } else {
            Err(KvsError::KeyNotFound)
        }
    }

    /// Records that a `Remove` of `key` was appended to the active log.
    /// Fails with `KeyNotFound`, changing nothing, if the store does not hold
    /// the key.
    pub fn record_remove(&mut self, key: &String) -> (r: Result<(), KvsError>)
        requires
            old(self).wf(),
        ensures
            final(self).wf(),
            final(self)@ == old(self)@.with_remove(key@),
            r is Ok <==> old(self)@.index.contains_key(key@),
            r is Err ==> r matches Err(KvsError::KeyNotFound),
    {
        if self.apply_remove(key) {
            Ok(())
        } else {
            Err(KvsError::KeyNotFound)
        }
    }

    /// Opens a compaction: the generation after the active one receives the
    /// live records, and the one after that becomes the active log. Returns
    /// the generation that receives the records; `None`, changing nothing,
    /// when the generation numbers are used up.
    pub fn start_compaction(&mut self) -> (r: Option<u64>)
        requires
            old(self).wf(),
        ensures
            final(self).wf(),
            final(self).layout() == old(self).layout(),
            r is Some <==> old(self)@.generation <= u64::MAX - 2,
            r is None ==> final(self)@ == old(self)@,
            r matches Some(g) ==> g == old(self)@.generation + 1 && final(self)@ == (EngineView {
                generation: (old(self)@.generation + 2) as u64,
                on_disk: old(self)@.on_disk.push(g).push((old(self)@.generation + 2) as u64),
                ..old(self)@
            }),
    {
        if self.current_generation <= u64::MAX - 2 {
            let compaction_generation = self.current_generation + 1;
            self.current_generation = self.current_generation + 2;
            let ghost before = self.on_disk@;
            self.on_disk.push(compaction_generation);
            self.on_disk.push(self.current_generation);
            assert(self.on_disk@.last() == self.current_generation);
            assert(self@.files_cover_index()) by {
                assert forall|k: Seq<char>| #[trigger] self@.index.contains_key(k) implies self@.on_disk.contains(
                    self@.index[k].generation,
                ) by {
                    assert(old(self)@.index.contains_key(k));
                    assert(before.contains(self@.index[k].generation));
                    let j = choose|j: int| 0 <= j < before.len() && before[j] == self@.index[k].generation;
                    assert(self@.on_disk[j] == before[j]);
                }
            }
            Some(compaction_generation)
        } else {
            None
        }
    }

    /// The places of the live records, in the order in which compaction
    /// copies them.
    pub fn live_records(&self) -> (r: Vec<CommandPos>)
        ensures
            r@ == self.layout(),
    {
        self.index.layout_vec()
    }

    /// Ends a compaction whose live records were copied, in the order of
    /// `live_records`, one after another from the start of the file of
    /// `compaction_generation`: every key now points at its copy, no byte is
    /// stale, and the files of all older generations are retired. Returns
    /// those generations, whose files can then be deleted. `None`, changing
    /// nothing, when that file is not on disk, is newer than the active one,
    /// or the copies together are longer than a file offset can express.
    pub fn finish_compaction(&mut self, compaction_generation: u64) -> (r: Option<Vec<u64>>)
        requires
            old(self).wf(),
        ensures
            final(self).wf(),
            r is Some <==> (old(self)@.on_disk.contains(compaction_generation)
                && compaction_generation <= old(self)@.generation
                && total_len(old(self).layout()) <= u64::MAX),
            r is None ==> final(self)@ == old(self)@,
            r matches Some(retired) ==> {
                &&& retired@ == older_than(old(self)@.on_disk, compaction_generation)
                &&& final(self)@.on_disk == from_bound(old(self)@.on_disk, compaction_generation)
                &&& relocated(old(self).layout(), compaction_generation, final(self).layout())
                &&& final(self).key_order() == old(self).key_order()
                &&& final(self)@.index.dom() == old(self)@.index.dom()
                &&& final(self)@.generation == old(self)@.generation
                &&& final(self)@.uncompacted == 0
                &&& forall|k: Seq<char>| #[trigger]
                    final(self)@.index.contains_key(k) ==> final(self)@.index[k].generation
                        == compaction_generation && final(self)@.index[k].len
                        == old(self)@.index[k].len
            },
    {
        if !has_generation(&self.on_disk, compaction_generation)
            || compaction_generation > self.current_generation {
            return None;
        }
        if !self.index.relocate(compaction_generation) {
            return None;
        }
        let retired = stale_generations(&self.on_disk, compaction_generation);
        let kept = remaining_generations(&self.on_disk, compaction_generation);
        proof {
            lemma_from_bound_keeps(self.on_disk@, compaction_generation, compaction_generation);
            lemma_from_bound_keeps(self.on_disk@, compaction_generation, self.current_generation);
        }
        self.on_disk = kept;
        self.uncompacted = 0;
        Some(retired)
    }
}

} // verus!
