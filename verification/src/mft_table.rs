//! The file records of a volume: who is whose parent, and the paths that follow.
//!
//! Records come in no order and name only their parents, so paths are found
//! afterwards by going up. What was found is remembered for each record.
use vstd::prelude::*;
use vstd::string::*;

use crate::hashing;
use crate::hashing::FrnSlots;
use crate::ntfs;
use crate::text;
use crate::usn;
use crate::usn::{UsnRecord, UsnView};

verus! {

/// The place in the master file table of the root directory of a volume.
pub const ROOT_FILE_INDEX: u128 = 5;

/// The low 48 bits of a file reference number are the place in the master file
/// table.
pub const FRN_INDEX_RANGE: u128 = 0x1_0000_0000_0000;

/// How many records a path may go through.
pub const MAX_PATH_DEPTH: usize = 512;

/// A file record in mathematical terms.
#[verifier::ext_equal]
pub struct RecordView {
    pub frn: nat,
    pub parent_frn: nat,
    pub frn_bytes: Seq<u8>,
    pub is_128_bit: bool,
    pub name: Seq<char>,
    pub file_attributes: u32,
    pub timestamp: i64,
}

/// What is kept of a file record.
#[derive(Clone, Debug, PartialEq, Eq)]
pub struct MftRecord {
    pub frn: u128,
    pub parent_frn: u128,
    pub frn_bytes: [u8; 16],
    /// Whether the file reference number has 128 bits.
    pub is_128_bit: bool,
    pub name: String,
    pub file_attributes: u32,
    /// The time of the journal, for want of a better one.
    pub timestamp: i64,
}

impl View for MftRecord {
    type V = RecordView;

    open spec fn view(&self) -> RecordView {
        RecordView {
            frn: self.frn as nat,
            parent_frn: self.parent_frn as nat,
            frn_bytes: self.frn_bytes@,
            is_128_bit: self.is_128_bit,
            name: self.name@,
            file_attributes: self.file_attributes,
            timestamp: self.timestamp,
        }
    }
}

/// Records in mathematical terms.
pub open spec fn record_views(v: Seq<MftRecord>) -> Seq<RecordView> {
    Seq::new(v.len(), |i: int| v[i]@)
}

/// What is kept of a record of the journal.
pub open spec fn kept(u: UsnView) -> RecordView {
    RecordView {
        frn: u.frn,
        parent_frn: u.parent_frn,
        frn_bytes: u.frn_bytes,
        is_128_bit: u.major_version >= 3,
        name: u.name,
        file_attributes: u.file_attributes,
        timestamp: u.timestamp,
    }
}

fn keep(u: UsnRecord) -> (r: MftRecord)
    ensures
        r@ == kept(u@),
{
    MftRecord {
        frn: u.frn,
        parent_frn: u.parent_frn,
        frn_bytes: u.frn_bytes,
        is_128_bit: u.major_version >= 3,
        name: u.name,
        file_attributes: u.file_attributes,
        timestamp: u.timestamp,
    }
}

/// The records of a volume in mathematical terms.
#[verifier::ext_equal]
pub struct TableView {
    pub records: Seq<RecordView>,
    /// Records whose file reference number came before: further hard links.
    pub duplicates: Seq<RecordView>,
}

/// Whether the record at `i` has the file reference number.
pub open spec fn is_at(recs: Seq<RecordView>, i: int, frn: nat) -> bool {
    0 <= i < recs.len() && recs[i].frn == frn
}

/// Whether some record has the file reference number.
pub open spec fn known(recs: Seq<RecordView>, frn: nat) -> bool {
    exists|i: int| is_at(recs, i, frn)
}

/// The place of the record with the file reference number.
pub open spec fn slot(recs: Seq<RecordView>, frn: nat) -> int {
    choose|i: int| is_at(recs, i, frn)
}

/// Whether no two records have the same file reference number.
pub open spec fn distinct(recs: Seq<RecordView>) -> bool {
    forall|i: int, j: int|
        0 <= i < recs.len() && 0 <= j < recs.len() && (#[trigger] recs[i]).frn == (
        #[trigger] recs[j]).frn ==> i == j
}

/// The records once one more came. Records of version 4 tell of no file; those
/// whose file reference number is known are put aside.
pub open spec fn gathered_one(t: TableView, u: UsnView) -> TableView {
    if u.major_version == 4 {
        t
    } else if known(t.records, u.frn) {
        TableView { duplicates: t.duplicates.push(kept(u)), ..t }
    } else {
        TableView { records: t.records.push(kept(u)), ..t }
    }
}

/// The records once more came.
pub open spec fn gathered(t: TableView, us: Seq<UsnView>) -> TableView
    decreases us.len(),
{
    if us.len() == 0 {
        t
    } else {
        gathered_one(gathered(t, us.drop_last()), us.last())
    }
}

/// The records of a volume.
pub struct MftTable {
    records: Vec<MftRecord>,
    duplicates: Vec<MftRecord>,
    slots: FrnSlots,
}

impl View for MftTable {
    type V = TableView;

    closed spec fn view(&self) -> TableView {
        TableView {
            records: record_views(self.records@),
            duplicates: record_views(self.duplicates@),
        }
    }
}

impl Default for MftTable {
    fn default() -> (t: Self)
        ensures
            t.wf(),
            t@.records.len() == 0,
            t@.duplicates.len() == 0,
    {
        MftTable::new()
    }
}

impl MftTable {
    /// No two records share a file reference number, and each is found by it.
    pub closed spec fn wf(&self) -> bool {
        &&& distinct(self@.records)
        &&& forall|i: int|
            0 <= i < self.records@.len() ==> hashing::frn_slots(self.slots).dom().contains(
                (#[trigger] self.records@[i]).frn,
            ) && hashing::frn_slots(self.slots)[self.records@[i].frn] == i
        &&& forall|frn: u128| #[trigger]
            hashing::frn_slots(self.slots).dom().contains(frn) ==> {
                &&& hashing::frn_slots(self.slots)[frn] < self.records@.len()
                &&& self.records@[hashing::frn_slots(self.slots)[frn] as int].frn == frn
            }
    }

    /// No records.
    pub fn new() -> (t: Self)
        ensures
            t.wf(),
            t@.records.len() == 0,
            t@.duplicates.len() == 0,
    {
        MftTable { records: Vec::new(), duplicates: Vec::new(), slots: hashing::new_frn_slots() }
    }

    /// The records, each file reference number once.
    pub fn records(&self) -> (v: &Vec<MftRecord>)
        ensures
            record_views(v@) == self@.records,
            self.wf() ==> distinct(self@.records),
    {
        &self.records
    }

    /// The records whose file reference number came before.
    pub fn duplicates(&self) -> (v: &Vec<MftRecord>)
        ensures
            record_views(v@) == self@.duplicates,
    {
        &self.duplicates
    }

    /// The place of the record with a file reference number.
    pub fn find(&self, frn: u128) -> (r: Option<usize>)
        requires
            self.wf(),
        ensures
            match r {
                Some(i) => is_at(self@.records, i as int, frn as nat),
                None => !known(self@.records, frn as nat),
            },
    {
        let r = hashing::get_frn_slot(&self.slots, frn);
        proof {
            if r is None && known(self@.records, frn as nat) {
                let i = slot(self@.records, frn as nat);
                assert(self.records@[i].frn == frn);
            }
        }
        r
    }

    /// Takes in a record.
    pub fn gather(&mut self, u: UsnRecord)
        requires
            old(self).wf(),
        ensures
            final(self).wf(),
            final(self)@ == gathered_one(old(self)@, u@),
    {
        if u.major_version == 4 {
            return;
        }
        let frn: u128 = u.frn;
        let ghost before = self@;
        let n: usize = self.records.len();
        match self.find(frn) {
            Some(i) => {
                proof {
                    assert(is_at(self@.records, i as int, frn as nat));
                }
                let r = keep(u);
                self.duplicates.push(r);
                proof {
                    assert(self@.duplicates =~= before.duplicates.push(r@));
                }
            },
            None => {
                let r = keep(u);
                self.records.push(r);
                hashing::insert_frn_slot(&mut self.slots, frn, n);
                proof {
                    let now = self@.records;
                    assert(now =~= before.records.push(r@));
                    assert forall|i: int, j: int|
                        0 <= i < now.len() && 0 <= j < now.len() && (#[trigger] now[i]).frn == (
                        #[trigger] now[j]).frn implies i == j by {
                        if i < n && j == n {
                            assert(is_at(before.records, i, frn as nat));
                        }
                        if j < n && i == n {
                            assert(is_at(before.records, j, frn as nat));
                        }
                        if i < n && j < n {
                            assert(before.records[i].frn == before.records[j].frn);
                        }
                    }
                    assert forall|i: int| 0 <= i < self.records@.len() implies hashing::frn_slots(
                        self.slots,
                    ).dom().contains((#[trigger] self.records@[i]).frn) && hashing::frn_slots(
                        self.slots,
                    )[self.records@[i].frn] == i by {
                        if i < n {
                            assert(now[i].frn != now[n as int].frn);
                        }
                    }
                }
            },
        }
    }

    /// Takes in records.
    pub fn gather_all(&mut self, us: Vec<UsnRecord>)
        requires
            old(self).wf(),
        ensures
            final(self).wf(),
            final(self)@ == gathered(old(self)@, usn::usn_views(us@)),
    {
        let ghost all = usn::usn_views(us@);
        let ghost start = self@;
        let mut rest = us;
        let mut ordered: Vec<UsnRecord> = Vec::new();
        while rest.len() > 0
            invariant
                rest@.len() + ordered@.len() == all.len(),
                forall|i: int| 0 <= i < rest@.len() ==> (#[trigger] rest@[i])@ == all[i],
                forall|i: int|
                    0 <= i < ordered@.len() ==> (#[trigger] ordered@[i])@ == all[all.len() - 1 - i],
            decreases rest@.len(),
        {
            if let Some(u) = rest.pop() {
                ordered.push(u);
            }
        }
        proof {
            assert(all.take(0) =~= Seq::empty());
        }
        while ordered.len() > 0
            invariant
                self.wf(),
                ordered@.len() <= all.len(),
                forall|i: int|
                    0 <= i < ordered@.len() ==> (#[trigger] ordered@[i])@ == all[all.len() - 1 - i],
                self@ == gathered(start, all.take(all.len() - ordered@.len())),
            decreases ordered@.len(),
        {
            let ghost k = all.len() - ordered@.len();
            if let Some(u) = ordered.pop() {
                proof {
                    assert(u@ == all[k]);
                    assert(all.take(k + 1).drop_last() =~= all.take(k));
                    assert(all.take(k + 1).last() == all[k]);
                }
                self.gather(u);
            }
        }
        proof {
            assert(all.take(all.len() as int) =~= all);
        }
    }
}

/// A path with one more name.
pub open spec fn backslash_joined(path: Seq<char>, name: Seq<char>) -> Seq<char> {
    if path.len() == 0 {
        name
    } else {
        path.push('\\') + name
    }
}

/// The path that leads to a file reference number and the number of records on
/// it: of a record the path of its parent and its name. A record that is its own
/// parent starts a path; an unknown one has the empty path. A path through more
/// than `left` records is none.
pub open spec fn climb(recs: Seq<RecordView>, frn: nat, left: nat) -> Option<(Seq<char>, nat)>
    decreases left, 0int,
{
    if !known(recs, frn) {
        Some((Seq::empty(), 0))
    } else if left == 0 {
        None
    } else {
        grown(over(recs, slot(recs, frn), (left - 1) as nat), recs[slot(recs, frn)].name)
    }
}

/// The path that leads to the parent of a record, empty where it is its own.
pub open spec fn over(recs: Seq<RecordView>, i: int, left: nat) -> Option<(Seq<char>, nat)>
    decreases left, 1int,
{
    if recs[i].parent_frn == recs[i].frn {
        Some((Seq::empty(), 0))
    } else {
        climb(recs, recs[i].parent_frn, left)
    }
}

/// A path with one more name, and one more record on it.
pub open spec fn grown(base: Option<(Seq<char>, nat)>, name: Seq<char>) -> Option<
    (Seq<char>, nat),
> {
    match base {
        None => None,
        Some((p, d)) => Some((backslash_joined(p, name), d + 1)),
    }
}

/// The path of a record inside its volume. There is none for unknown records,
/// for records whose parents go round in a circle, and where the path would go
/// through too many records.
pub open spec fn path_in(recs: Seq<RecordView>, frn: nat) -> Option<Seq<char>> {
    if !known(recs, frn) {
        None
    } else {
        match climb(recs, frn, MAX_PATH_DEPTH as nat) {
            Some((p, _)) => Some(p),
            None => None,
        }
    }
}

/// A path is the same whatever the number of records that it may go through, as
/// long as it may go through so many.
pub proof fn lemma_climb(recs: Seq<RecordView>, frn: nat, left: nat, other: nat)
    requires
        climb(recs, frn, left) matches Some((_, d)) && d <= other,
    ensures
        climb(recs, frn, other) == climb(recs, frn, left),
    decreases left,
{
    if known(recs, frn) {
        let i = slot(recs, frn);
        assert(over(recs, i, (left - 1) as nat) is Some);
        if recs[i].parent_frn != recs[i].frn {
            lemma_climb(recs, recs[i].parent_frn, (left - 1) as nat, (other - 1) as nat);
        }
    }
}

/// A path goes through no more records than it may.
pub proof fn lemma_climb_bound(recs: Seq<RecordView>, frn: nat, left: nat)
    ensures
        climb(recs, frn, left) matches Some((_, d)) ==> d <= left,
    decreases left,
{
    if known(recs, frn) && left > 0 {
        let i = slot(recs, frn);
        if recs[i].parent_frn != recs[i].frn {
            lemma_climb_bound(recs, recs[i].parent_frn, (left - 1) as nat);
        }
    }
}

/// Records whose parents go round in a circle have no path, however many records
/// it may go through.
pub proof fn law_circle_has_no_path(recs: Seq<RecordView>, a: int, b: int)
    requires
        distinct(recs),
        0 <= a < recs.len(),
        0 <= b < recs.len(),
        a != b,
        recs[a].parent_frn == recs[b].frn,
        recs[b].parent_frn == recs[a].frn,
    ensures
        path_in(recs, recs[a].frn) is None,
        path_in(recs, recs[b].frn) is None,
{
    lemma_circle(recs, a, b, MAX_PATH_DEPTH as nat);
    assert(is_at(recs, a, recs[a].frn));
    assert(is_at(recs, b, recs[b].frn));
}

proof fn lemma_circle(recs: Seq<RecordView>, a: int, b: int, left: nat)
    requires
        distinct(recs),
        0 <= a < recs.len(),
        0 <= b < recs.len(),
        a != b,
        recs[a].parent_frn == recs[b].frn,
        recs[b].parent_frn == recs[a].frn,
    ensures
        climb(recs, recs[a].frn, left) is None,
        climb(recs, recs[b].frn, left) is None,
    decreases left,
{
    lemma_slot(recs, a);
    lemma_slot(recs, b);
    if left > 0 {
        lemma_circle(recs, a, b, (left - 1) as nat);
    }
}

/// A record is found by its file reference number.
pub proof fn lemma_slot(recs: Seq<RecordView>, i: int)
    requires
        distinct(recs),
        0 <= i < recs.len(),
    ensures
        known(recs, recs[i].frn),
        slot(recs, recs[i].frn) == i,
{
    assert(is_at(recs, i, recs[i].frn));
    let j = slot(recs, recs[i].frn);
    assert(is_at(recs, j, recs[i].frn));
    assert(recs[j].frn == recs[i].frn);
}

/// What is remembered of the path of a record.
enum Memo {
    Unknown,
    NoPath,
    Path(String, usize),
}

/// The paths found so far.
pub struct PathCache {
    memos: Vec<Memo>,
}

impl PathCache {
    /// Whether what is remembered is so.
    pub closed spec fn wf(&self, recs: Seq<RecordView>) -> bool {
        &&& self.memos@.len() == recs.len()
        &&& forall|i: int|
            0 <= i < recs.len() ==> {
                let found = climb(recs, (#[trigger] recs[i]).frn, MAX_PATH_DEPTH as nat);
                match self.memos@[i] {
                    Memo::Unknown => true,
                    Memo::NoPath => found is None,
                    Memo::Path(p, d) => found == Some((p@, d as nat)) && d <= MAX_PATH_DEPTH,
                }
            }
    }

    /// Nothing is remembered yet.
    pub fn new(table: &MftTable) -> (c: Self)
        requires
            table.wf(),
        ensures
            c.wf(table@.records),
    {
        let mut memos: Vec<Memo> = Vec::new();
        let n: usize = table.records.len();
        for i in 0..n
            invariant
                memos@.len() == i,
                forall|j: int| 0 <= j < i ==> (#[trigger] memos@[j]) is Unknown,
        {
            memos.push(Memo::Unknown);
        }
        PathCache { memos }
    }

    /// Sets what is remembered of a record.
    fn set(&mut self, i: usize, memo: Memo, recs: Ghost<Seq<RecordView>>)
        requires
            old(self).wf(recs@),
            i < recs@.len(),
            ({
                let found = climb(recs@, recs@[i as int].frn, MAX_PATH_DEPTH as nat);
                match memo {
                    Memo::Unknown => true,
                    Memo::NoPath => found is None,
                    Memo::Path(p, d) => found == Some((p@, d as nat)) && d <= MAX_PATH_DEPTH,
                }
            }),
        ensures
            final(self).wf(recs@),
    {
        self.memos.set(i, memo);
    }
}

/// Whether each record of a chain is the parent of the one before it.
spec fn chained(recs: Seq<RecordView>, chain: Seq<usize>) -> bool {
    &&& forall|k: int| 0 <= k < chain.len() ==> (#[trigger] chain[k]) < recs.len()
    &&& forall|k: int| 0 < k < chain.len() ==> #[trigger] follows(recs, chain, k)
}

/// Whether a record of a chain is the parent of the one before it.
spec fn follows(recs: Seq<RecordView>, chain: Seq<usize>, k: int) -> bool {
    let below = recs[chain[k - 1] as int];
    below.parent_frn == recs[chain[k] as int].frn && below.parent_frn != below.frn
}

/// How far up a record is known: the records above it that are not, and the
/// path of the last one's parent.
struct Ascent {
    chain: Vec<usize>,
    /// Whether there is no path.
    deep: bool,
    path: String,
    depth: usize,
}

impl Ascent {
    /// Whether the path is that of the start, where there is no record above it
    /// of which nothing is known, or else of the parent of the last such.
    spec fn right(&self, recs: Seq<RecordView>, start: int) -> bool {
        let max = MAX_PATH_DEPTH as nat;
        &&& self.depth <= max
        &&& chained(recs, self.chain@)
        &&& self.chain@.len() > 0 ==> self.chain@[0] == start
        &&& described(recs, start, self.chain@, self.deep, self.path@, self.depth as nat)
    }
}

/// Whether a path is that of the start, where the chain is empty, or else of the
/// parent of the last of the chain.
spec fn described(
    recs: Seq<RecordView>,
    start: int,
    chain: Seq<usize>,
    deep: bool,
    path: Seq<char>,
    depth: nat,
) -> bool {
    let max = MAX_PATH_DEPTH as nat;
    if chain.len() == 0 {
        if deep {
            climb(recs, recs[start].frn, max) is None
        } else {
            climb(recs, recs[start].frn, max) == Some((path, depth))
        }
    } else {
        if deep {
            over(recs, chain.last() as int, max) is None
        } else {
            over(recs, chain.last() as int, depth) == Some((path, depth))
        }
    }
}

/// Goes up from a record to what is known. There is nothing where there is no
/// path.
fn ascend(table: &MftTable, cache: &PathCache, start: usize) -> (r: Option<Ascent>)
    requires
        table.wf(),
        cache.wf(table@.records),
        start < table@.records.len(),
    ensures
        match r {
            Some(a) => a.right(table@.records, start as int),
            None => climb(
                table@.records,
                table@.records[start as int].frn,
                MAX_PATH_DEPTH as nat,
            ) is None,
        },
{
    let ghost recs = table@.records;
    let ghost max = MAX_PATH_DEPTH as nat;
    let ghost frn = recs[start as int].frn;
    let mut chain: Vec<usize> = Vec::new();
    let mut cur: usize = start;
    loop
        invariant
            recs == table@.records,
            table.wf(),
            cache.wf(recs),
            distinct(recs),
            max == MAX_PATH_DEPTH,
            start < recs.len(),
            cur < recs.len(),
            frn == recs[start as int].frn,
            chain@.len() <= max,
            chained(recs, chain@),
            chain@.len() > 0 ==> chain@[0] == start,
            chain@.len() == 0 ==> cur == start,
            chain@.len() > 0 ==> recs[chain@.last() as int].parent_frn == recs[cur as int].frn
                && recs[chain@.last() as int].parent_frn != recs[chain@.last() as int].frn,
            climb(recs, recs[cur as int].frn, (max - chain@.len()) as nat) is None ==> climb(
                recs,
                frn,
                max,
            ) is None,
        decreases max - chain@.len(),
    {
        let ghost here = recs[cur as int].frn;
        proof {
            lemma_slot(recs, cur as int);
        }
        match &cache.memos[cur] {
            Memo::Unknown => {},
            Memo::NoPath => {
                return Some(Ascent { chain, deep: true, path: String::new(), depth: 0 });
            },
            Memo::Path(p, d) => {
                proof {
                    lemma_climb(recs, here, max, *d as nat);
                }
                return Some(Ascent { chain, deep: false, path: p.clone(), depth: *d });
            },
        }
        if chain.len() >= MAX_PATH_DEPTH {
            return None;
        }
        let rec = &table.records[cur];
        let ghost before = chain@;
        proof {
            assert(rec@ == recs[cur as int]);
        }
        chain.push(cur);
        proof {
            assert forall|k: int| 0 < k < chain@.len() implies #[trigger] follows(
                recs,
                chain@,
                k,
            ) by {
                if k < before.len() {
                    assert(follows(recs, before, k));
                }
            }
        }
        let top: Option<usize> = if rec.parent_frn == rec.frn {
            None
        } else {
            table.find(rec.parent_frn)
        };
        match top {
            Some(i) => {
                cur = i;
            },
            None => {
                let path = String::new();
                proof {
                    assert(path@ =~= Seq::<char>::empty());
                }
                return Some(Ascent { chain, deep: false, path, depth: 0 });
            },
        }
    }
}

/// Comes down from what is known, and remembers the paths on the way.
fn descend(table: &MftTable, cache: &mut PathCache, start: usize, ascent: Ascent) -> (r: Option<
    String,
>)
    requires
        table.wf(),
        old(cache).wf(table@.records),
        start < table@.records.len(),
        ascent.right(table@.records, start as int),
    ensures
        final(cache).wf(table@.records),
        match (r, climb(table@.records, table@.records[start as int].frn, MAX_PATH_DEPTH as nat)) {
            (Some(p), Some((q, _))) => p@ == q,
            (None, None) => true,
            _ => false,
        },
{
    let ghost recs = table@.records;
    let ghost max = MAX_PATH_DEPTH as nat;
    let mut chain = ascent.chain;
    let mut deep = ascent.deep;
    let mut path = ascent.path;
    let mut depth: usize = ascent.depth;
    while chain.len() > 0
        invariant
            recs == table@.records,
            table.wf(),
            cache.wf(recs),
            distinct(recs),
            max == MAX_PATH_DEPTH,
            start < recs.len(),
            depth <= max,
            chained(recs, chain@),
            chain@.len() > 0 ==> chain@[0] == start,
            described(recs, start as int, chain@, deep, path@, depth as nat),
        decreases chain@.len(),
    {
        let ghost full = chain@;
        let at: usize = match chain.pop() {
            Some(at) => at,
            None => start,
        };
        let rec = &table.records[at];
        proof {
            assert(at == full.last());
            assert(rec@ == recs[at as int]);
            lemma_slot(recs, at as int);
            assert forall|k: int| 0 < k < chain@.len() implies #[trigger] follows(
                recs,
                chain@,
                k,
            ) by {
                assert(follows(recs, full, k));
            }
            if chain@.len() > 0 {
                assert(follows(recs, full, full.len() - 1));
            }
        }
        if deep {
            proof {
                lemma_no_path(recs, at as int);
            }
            cache.set(at, Memo::NoPath, Ghost(recs));
        } else {
            let ghost before = path@;
            let ghost before_depth = depth as nat;
            if path.as_str().unicode_len() > 0 {
                path.push('\\');
            }
            path.append(rec.name.as_str());
            proof {
                assert(path@ =~= backslash_joined(before, rec.name@));
                lemma_path_step(recs, at as int, before, before_depth);
            }
            if depth >= MAX_PATH_DEPTH {
                deep = true;
                cache.set(at, Memo::NoPath, Ghost(recs));
            } else {
                depth = depth + 1;
                cache.set(at, Memo::Path(path.clone(), depth), Ghost(recs));
            }
        }
    }
    if deep {
        None
    } else {
        Some(path)
    }
}

/// The path of the record with a file reference number inside its volume.
pub fn path_of(table: &MftTable, cache: &mut PathCache, frn: u128) -> (r: Option<String>)
    requires
        table.wf(),
        old(cache).wf(table@.records),
    ensures
        final(cache).wf(table@.records),
        match r {
            Some(p) => path_in(table@.records, frn as nat) == Some(p@),
            None => path_in(table@.records, frn as nat) is None,
        },
{
    let start: usize = match table.find(frn) {
        Some(i) => i,
        None => {
            return None;
        },
    };
    proof {
        lemma_slot(table@.records, start as int);
    }
    match ascend(table, cache, start) {
        Some(ascent) => descend(table, cache, start, ascent),
        None => {
            cache.set(start, Memo::NoPath, Ghost(table@.records));
            None
        },
    }
}

/// Where the parent has no path, there is none.
proof fn lemma_no_path(recs: Seq<RecordView>, i: int)
    requires
        distinct(recs),
        0 <= i < recs.len(),
        over(recs, i, MAX_PATH_DEPTH as nat) is None,
    ensures
        climb(recs, recs[i].frn, MAX_PATH_DEPTH as nat) is None,
{
    lemma_slot(recs, i);
    let less = (MAX_PATH_DEPTH - 1) as nat;
    if climb(recs, recs[i].parent_frn, less) is Some {
        lemma_climb_bound(recs, recs[i].parent_frn, less);
        lemma_climb(recs, recs[i].parent_frn, less, MAX_PATH_DEPTH as nat);
    }
}

/// The path of a record follows from that of its parent.
proof fn lemma_path_step(recs: Seq<RecordView>, i: int, path: Seq<char>, depth: nat)
    requires
        distinct(recs),
        0 <= i < recs.len(),
        depth <= MAX_PATH_DEPTH,
        over(recs, i, depth) == Some((path, depth)),
    ensures
        ({
            let full = backslash_joined(path, recs[i].name);
            let found = climb(recs, recs[i].frn, MAX_PATH_DEPTH as nat);
            if depth < MAX_PATH_DEPTH {
                &&& found == Some((full, depth + 1))
                &&& climb(recs, recs[i].frn, depth + 1) == Some((full, depth + 1))
            } else {
                found is None
            }
        }),
{
    lemma_slot(recs, i);
    let up = recs[i].parent_frn;
    let max = MAX_PATH_DEPTH as nat;
    if up != recs[i].frn {
        if depth < max {
            lemma_climb(recs, up, depth, (max - 1) as nat);
        } else if climb(recs, up, (max - 1) as nat) is Some {
            lemma_climb_bound(recs, up, (max - 1) as nat);
            lemma_climb(recs, up, (max - 1) as nat, max);
        }
    }
}

/// Whether a record can be the root of a volume: it has the place of root
/// directories.
pub open spec fn is_volume_root(r: RecordView) -> bool {
    r.frn % (FRN_INDEX_RANGE as nat) == ROOT_FILE_INDEX
}

/// Whether a record is a directory without a parent.
pub open spec fn is_top(recs: Seq<RecordView>, r: RecordView) -> bool {
    ntfs::directory(r.file_attributes) && (r.parent_frn == r.frn || !known(recs, r.parent_frn))
}

/// Whether a record has the path, whatever the case of its letters.
pub open spec fn has_path(recs: Seq<RecordView>, r: RecordView, path: Seq<char>) -> bool {
    match path_in(recs, r.frn) {
        Some(p) => text::lower(p) == text::lower(path),
        None => false,
    }
}

/// Whether a record is where a scan of `suffix` starts. The empty path stands
/// for the root of the volume; for want of a record with the place of root
/// directories any directory without a parent will do.
pub open spec fn starts_scan(recs: Seq<RecordView>, suffix: Seq<char>, r: RecordView) -> bool {
    if suffix.len() > 0 {
        has_path(recs, r, suffix)
    } else if exists|i: int| 0 <= i < recs.len() && is_volume_root(#[trigger] recs[i]) {
        is_volume_root(r)
    } else {
        is_top(recs, r)
    }
}

/// The record where a scan of `suffix` starts, if there is one: the first such
/// record.
pub fn find_scan_root(table: &MftTable, cache: &mut PathCache, suffix: &str) -> (r: Option<usize>)
    requires
        table.wf(),
        old(cache).wf(table@.records),
    ensures
        final(cache).wf(table@.records),
        match r {
            Some(n) => {
                &&& n < table@.records.len()
                &&& starts_scan(table@.records, suffix@, table@.records[n as int])
                &&& forall|i: int|
                    0 <= i < n ==> !starts_scan(
                        table@.records,
                        suffix@,
                        #[trigger] table@.records[i],
                    )
            },
            None => forall|i: int|
                0 <= i < table@.records.len() ==> !starts_scan(
                    table@.records,
                    suffix@,
                    #[trigger] table@.records[i],
                ),
        },
{
    let ghost recs = table@.records;
    let n: usize = table.records.len();
    if suffix.unicode_len() == 0 {
        for i in 0..n
            invariant
                n == recs.len(),
                recs == table@.records,
                cache.wf(recs),
                suffix@.len() == 0,
                forall|j: int| 0 <= j < i ==> !is_volume_root(#[trigger] recs[j]),
        {
            let rec = &table.records[i];
            proof {
                assert(rec@ == recs[i as int]);
            }
            if rec.frn % FRN_INDEX_RANGE == ROOT_FILE_INDEX {
                return Some(i);
            }
        }
        for i in 0..n
            invariant
                n == recs.len(),
                recs == table@.records,
                table.wf(),
                cache.wf(recs),
                suffix@.len() == 0,
                forall|j: int| 0 <= j < n ==> !is_volume_root(#[trigger] recs[j]),
                forall|j: int| 0 <= j < i ==> !is_top(recs, #[trigger] recs[j]),
        {
            let rec = &table.records[i];
            proof {
                assert(rec@ == recs[i as int]);
            }
            if ntfs::is_directory(rec.file_attributes) && (rec.parent_frn == rec.frn || table.find(
                rec.parent_frn,
            ).is_none()) {
                return Some(i);
            }
        }
        return None;
    }
    let wanted = text::lowered(&text::chars_of(suffix));
    for i in 0..n
        invariant
            n == recs.len(),
            recs == table@.records,
            table.wf(),
            cache.wf(recs),
            suffix@.len() > 0,
            wanted@ == text::lower(suffix@),
            forall|j: int| 0 <= j < i ==> !has_path(recs, #[trigger] recs[j], suffix@),
    {
        let rec = &table.records[i];
        proof {
            assert(rec@ == recs[i as int]);
        }
        if let Some(p) = path_of(table, cache, rec.frn) {
            let lower = text::lowered(&text::chars_of(p.as_str()));
            if text::same(&lower, &wanted) {
                return Some(i);
            }
        }
    }
    None
}

/// A record of a table is kept field by field; references of 16 bytes come with
/// version 3.
pub proof fn law_kept_records(u: UsnView)
    ensures
        ({
            let r = kept(u);
            &&& r.frn == u.frn
            &&& r.parent_frn == u.parent_frn
            &&& r.frn_bytes == u.frn_bytes
            &&& r.name == u.name
            &&& r.file_attributes == u.file_attributes
            &&& r.timestamp == u.timestamp
            &&& r.is_128_bit <==> u.major_version >= 3
        }),
{
}

/// The first record of a reference is kept as a record, a later one as a duplicate,
/// and one without a name as neither.
pub proof fn law_gathering(t: TableView, u: UsnView)
    ensures
        ({
            let n = gathered_one(t, u);
            let there = exists|i: int| 0 <= i < t.records.len() && (#[trigger] t.records[i]).frn == u.frn;
            &&& u.major_version == 4 ==> n == t
            &&& u.major_version != 4 && !there ==> n.records == t.records.push(kept(u))
                && n.duplicates == t.duplicates
            &&& u.major_version != 4 && there ==> n.records == t.records && n.duplicates
                == t.duplicates.push(kept(u))
        }),
{
    if known(t.records, u.frn) {
        let i = choose|i: int| is_at(t.records, i, u.frn);
        assert(t.records[i].frn == u.frn);
    }
    if exists|i: int| 0 <= i < t.records.len() && (#[trigger] t.records[i]).frn == u.frn {
        let i = choose|i: int| 0 <= i < t.records.len() && (#[trigger] t.records[i]).frn == u.frn;
        assert(is_at(t.records, i, u.frn));
    }
}

/// The path of a record is that of its parent with a backslash and its name behind
/// it; a record whose parent is itself or not known has its name for a path.
pub proof fn law_record_paths(recs: Seq<RecordView>, i: int, left: nat)
    requires
        distinct(recs),
        0 <= i < recs.len(),
    ensures
        ({
            let r = recs[i];
            let top = r.parent_frn == r.frn || !known(recs, r.parent_frn);
            let up = climb(recs, r.parent_frn, left);
            let here = climb(recs, r.frn, left + 1);
            &&& top ==> here == Some((r.name, 1nat))
            &&& !top && up is None ==> here is None
            &&& !top && up is Some && (up->0).0.len() > 0 ==> here == Some(
                ((up->0).0 + seq!['\\'] + r.name, (up->0).1 + 1),
            )
        }),
{
    let r = recs[i];
    assert(is_at(recs, i, r.frn));
    let k = slot(recs, r.frn);
    assert(is_at(recs, k, r.frn));
    assert(k == i);
    let up = climb(recs, r.parent_frn, left);
    if up is Some {
        assert((up->0).0.push('\\') + r.name =~= (up->0).0 + seq!['\\'] + r.name);
    }
}

/// The root of a volume is the record with the number 5, whatever the sequence
/// number in the upper bits of its reference.
pub proof fn law_volume_root(r: RecordView)
    ensures
        is_volume_root(r) <==> r.frn % 0x1_0000_0000_0000 == 5,
{
}

} // verus!
