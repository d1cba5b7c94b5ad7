//! The typed record store: a registry of known record types, and the
//! decisions of each store operation over the type files it owns.
//!
//! Each registered type has a file `<folder>/<type name>`, a sequence of
//! records of one size. The store decides; the caller performs the file work
//! that a decision names and hands back what it read.

use vstd::prelude::*;

use crate::error::StoreError;
use crate::record::{
    decode_spec, is_record_of, payload_of, read_window, record_size, scan, split_records,
    lemma_scan_append, lemma_scan_drops_partial_tail, INDEX_SIZE,
};

verus! {

/// A store as the contracts see it: its data folder, and the record size of
/// each type registered in it.
pub struct DatabaseView {
    pub folder: Seq<char>,
    pub types: Map<Seq<char>, usize>,
}

/// The path of the file of type `name` in data folder `folder`.
pub open spec fn file_path_spec(folder: Seq<char>, name: Seq<char>) -> Seq<char> {
    folder + seq!['/'] + name
}

/// What a save of a `payload_len`-byte payload of type `name` decides: `Ok(true)`
/// where the type file is to be created afresh (an existing one is truncated),
/// `Ok(false)` where the record is appended to it.
pub open spec fn save_spec(types: Map<Seq<char>, usize>, name: Seq<char>, payload_len: nat) -> Result<
    bool,
    StoreError,
> {
    if types.contains_key(name) {
        if types[name] == payload_len + INDEX_SIZE {
            Ok(false)
        } else {
            Err(StoreError::SizeMismatch)
        }
    } else if payload_len + INDEX_SIZE <= usize::MAX {
        Ok(true)
    } else {
        Err(StoreError::TooLarge)
    }
}

/// The registry once a save of a `payload_len`-byte payload of type `name` has
/// been carried out: a type seen for the first time is registered, after its
/// file was created.
pub open spec fn types_after_save(
    types: Map<Seq<char>, usize>,
    name: Seq<char>,
    payload_len: nat,
) -> Map<Seq<char>, usize> {
    if !types.contains_key(name) && payload_len + INDEX_SIZE <= usize::MAX {
        types.insert(name, (payload_len + INDEX_SIZE) as usize)
    } else {
        types
    }
}

/// The type file after a save has been carried out: the new record alone
/// where the file was created afresh, else appended to what was there.
pub open spec fn stored(file: Seq<u8>, truncate: bool, record: Seq<u8>) -> Seq<u8> {
    if truncate {
        record
    } else {
        file + record
    }
}

/// Whether type `name` can be read from a file of `file_len` bytes: its record
/// size, or why not.
pub open spec fn read_spec(types: Map<Seq<char>, usize>, name: Seq<char>, file_len: nat) -> Result<
    usize,
    StoreError,
> {
    if !types.contains_key(name) {
        Err(StoreError::NotRegistered)
    } else if file_len == 0 {
        Err(StoreError::Empty)
    } else {
        Ok(types[name])
    }
}

/// Where the record at 1-based `position` of type `name` lies in a file of
/// `file_len` bytes: its offset and length, or why there is none.
pub open spec fn get_spec(
    types: Map<Seq<char>, usize>,
    name: Seq<char>,
    position: nat,
    file_len: nat,
) -> Result<(int, int), StoreError> {
    match read_spec(types, name, file_len) {
        Err(e) => Err(e),
        Ok(rs) => if position == 0 || position > file_len / (rs as nat) {
            Err(StoreError::OutOfRange)
        } else {
            Ok(((position - 1) * rs, rs as int))
        },
    }
}

/// The payloads that a full scan of type `name` yields from `file`, or why none.
pub open spec fn get_all_spec(types: Map<Seq<char>, usize>, name: Seq<char>, file: Seq<u8>) -> Result<
    Seq<Seq<u8>>,
    StoreError,
> {
    match read_spec(types, name, file.len()) {
        Err(e) => Err(e),
        Ok(rs) => Ok(scan(file, rs as nat)),
    }
}

/// The payloads of a scan result, as byte sequences.
pub open spec fn payloads_result(r: Result<Vec<Vec<u8>>, StoreError>) -> Result<
    Seq<Seq<u8>>,
    StoreError,
> {
    match r {
        Ok(v) => Ok(v@.map_values(|b: Vec<u8>| b@)),
        Err(e) => Err(e),
    }
}

/// What a save asks of the caller: open the file at `path`, created afresh
/// where `truncate` holds, and append one `record_size`-byte record to it.
pub struct SavePlan {
    pub path: String,
    pub truncate: bool,
    pub record_size: usize,
}

/// Where a positional read finds its record: `len` bytes from byte `offset`.
#[derive(Clone, Copy, Debug, PartialEq, Eq, Structural)]
pub struct RecordSpan {
    pub offset: u64,
    pub len: usize,
}

/// The registry after entry `at` of `before` is set to type `n` with record
/// size `rs`, or after such an entry is pushed at its end (`at` is then the
/// old length): the old registry with `n` mapped to `rs`.
proof fn lemma_registry_update(before: &Database, after: &Database, at: int, n: Seq<char>, rs: usize)
    requires
        before.wf(),
        after.wf(),
        0 <= at <= before.data_types@.len(),
        after.data_types@.len() == (if at < before.data_types@.len() {
            before.data_types@.len() as int
        } else {
            before.data_types@.len() + 1 as int
        }),
        at < before.data_types@.len() ==> before.data_types@[at].0@ == n,
        after.data_types@[at].0@ == n,
        after.data_types@[at].1 == rs,
        forall|j: int|
            0 <= j < before.data_types@.len() && j != at ==> after.data_types@[j]
                == before.data_types@[j],
    ensures
        after@.types == before@.types.insert(n, rs),
{
    assert(after.slot(at, n));
    after.lemma_slot_lookup(at);
    assert forall|k: Seq<char>| k != n implies (#[trigger] after@.types.contains_key(k)
        <==> before@.types.contains_key(k)) && (after@.types.contains_key(k)
        ==> after@.types[k] == before@.types[k]) by {
        if after@.types.contains_key(k) {
            let j = choose|j: int| after.slot(j, k);
            assert(before.slot(j, k));
            after.lemma_slot_lookup(j);
            before.lemma_slot_lookup(j);
        }
        if before@.types.contains_key(k) {
            let j = choose|j: int| before.slot(j, k);
            assert(after.slot(j, k));
        }
    }
    assert(after@.types =~= before@.types.insert(n, rs));
}

/// A store over one data folder, with its registry of record types.
pub struct Database {
    data_types: Vec<(String, usize)>,
    path_to_data_folder: String,
}

impl View for Database {
    type V = DatabaseView;

    closed spec fn view(&self) -> DatabaseView {
        DatabaseView {
            folder: self.path_to_data_folder@,
            types: Map::new(
                |k: Seq<char>| exists|i: int| self.slot(i, k),
                |k: Seq<char>| self.data_types@[choose|i: int| self.slot(i, k)].1,
            ),
        }
    }
}

impl Database {
    /// Entry `i` of the registry holds type `k`.
    closed spec fn slot(&self, i: int, k: Seq<char>) -> bool {
        0 <= i < self.data_types@.len() && self.data_types@[i].0@ == k
    }

    /// The registry holds each type once, with a record size that has room for
    /// the index field.
    pub closed spec fn wf(&self) -> bool {
        &&& forall|i: int, j: int|
            0 <= i < j < self.data_types@.len() ==> self.data_types@[i].0@
                != self.data_types@[j].0@
        &&& forall|i: int|
            0 <= i < self.data_types@.len() ==> #[trigger] self.data_types@[i].1 >= INDEX_SIZE
    }

    proof fn lemma_slot_lookup(&self, i: int)
        requires
            self.wf(),
            0 <= i < self.data_types@.len(),
        ensures
            self@.types.contains_key(self.data_types@[i].0@),
            self@.types[self.data_types@[i].0@] == self.data_types@[i].1,
    {
        let k = self.data_types@[i].0@;
        assert(self.slot(i, k));
        let j = choose|j: int| self.slot(j, k);
        assert(j == i);
    }

    /// Every type of the registry has a record size with room for the index field.
    pub proof fn lemma_sizes(&self)
        requires
            self.wf(),
        ensures
            forall|k: Seq<char>| #[trigger]
                self@.types.contains_key(k) ==> self@.types[k] >= INDEX_SIZE,
    {
        assert forall|k: Seq<char>| #[trigger]
            self@.types.contains_key(k) implies self@.types[k] >= INDEX_SIZE by {
            let j = choose|j: int| self.slot(j, k);
            self.lemma_slot_lookup(j);
        }
    }

    /// An empty store over the data folder `path_to_data_folder`.
    pub fn new(path_to_data_folder: String) -> (r: Self)
        ensures
            r.wf(),
            r@.folder == path_to_data_folder@,
            r@.types == Map::<Seq<char>, usize>::empty(),
    {
        let r = Database { data_types: Vec::new(), path_to_data_folder };
        assert(r@.types =~= Map::<Seq<char>, usize>::empty());
        r
    }

    /// The registry entry that holds type `name`, if any.
    fn find(&self, name: &String) -> (r: Option<usize>)
        requires
            self.wf(),
        ensures
            r matches Some(i) ==> i < self.data_types@.len() && self.data_types@[i as int].0@
                == name@,
            r is None ==> !self@.types.contains_key(name@),
            r is None ==> forall|k: int|
                0 <= k < self.data_types@.len() ==> self.data_types@[k].0@ != name@,
    {
        let mut i: usize = 0;
        while i < self.data_types.len()
            invariant
                i <= self.data_types@.len(),
                forall|k: int| 0 <= k < i ==> self.data_types@[k].0@ != name@,
            decreases self.data_types@.len() - i,
        {
            if self.data_types[i].0 == *name {
                return Some(i);
            }
            i = i + 1;
        }
        assert forall|k: Seq<char>| k == name@ implies !self@.types.contains_key(k) by {
            if self@.types.contains_key(k) {
                let j = choose|j: int| self.slot(j, k);
            }
        }
        None
    }

    /// The path of the file of type `tname`.
    pub fn file_path(&self, tname: &String) -> (r: String)
        ensures
            r@ == file_path_spec(self@.folder, tname@),
    {
        let mut r = self.path_to_data_folder.clone();
        r.append("/");
        r.append(tname.as_str());
        proof {
            reveal_strlit("/");
        }
        r
    }

    /// The record size that type `tname` was registered with, if any.
    pub fn record_size_of(&self, tname: &String) -> (r: Option<usize>)
        requires
            self.wf(),
        ensures
            r == (if self@.types.contains_key(tname@) {
                Some(self@.types[tname@])
            } else {
                None::<usize>
            }),
    {
        match self.find(tname) {
            Some(i) => {
                proof {
                    self.lemma_slot_lookup(i as int);
                }
                Some(self.data_types[i].1)
            },
            None => None,
        }
    }

    /// Registers type `tname` with payloads of `payload_size` bytes, or with
    /// that new size where it is known already, and gives the path of its file,
    /// which the caller creates afresh: prior contents of the file are lost.
    pub fn register_type(&mut self, tname: &String, payload_size: usize) -> (r: Result<
        String,
        StoreError,
    >)
        requires
            old(self).wf(),
        ensures
            final(self).wf(),
            final(self)@.folder == old(self)@.folder,
            payload_size + INDEX_SIZE > usize::MAX ==> r == Err::<String, StoreError>(
                StoreError::TooLarge,
            ) && final(self)@.types == old(self)@.types,
            payload_size + INDEX_SIZE <= usize::MAX ==> r is Ok && final(self)@.types == old(
                self,
            )@.types.insert(tname@, (payload_size + INDEX_SIZE) as usize),
            r matches Ok(p) ==> p@ == file_path_spec(old(self)@.folder, tname@),
    {
        let rs = match record_size(payload_size) {
            Some(rs) => rs,
            None => {
                return Err(StoreError::TooLarge);
            },
        };
        let ghost before = *self;
        let ghost n = tname@;
        let found = self.find(tname);
        let ghost at: int;
        match found {
            Some(i) => {
                self.data_types.set(i, (tname.clone(), rs));
                proof {
                    at = i as int;
                }
            },
            None => {
                self.data_types.push((tname.clone(), rs));
                proof {
                    at = before.data_types@.len() as int;
                }
            },
        }
        proof {
            lemma_registry_update(&before, &*self, at, n, rs);
        }
        Ok(self.file_path(tname))
    }

    /// Decides the save of `payload` as a record of type `tname`, leaving the
    /// registry as it is. For a type seen for the first time the plan creates
    /// the file afresh, discarding what an earlier process left in it, and the
    /// caller registers the type with `register_type` once the file is
    /// created; a known type's file is appended to.
    pub fn save(&self, tname: &String, payload: &Vec<u8>) -> (r: Result<SavePlan, StoreError>)
        requires
            self.wf(),
        ensures
            match r {
                Ok(p) => {
                    &&& save_spec(self@.types, tname@, payload@.len()) == Ok::<bool, StoreError>(
                        p.truncate,
                    )
                    &&& p.path@ == file_path_spec(self@.folder, tname@)
                    &&& p.record_size == payload@.len() + INDEX_SIZE
                    &&& p.truncate ==> types_after_save(self@.types, tname@, payload@.len())
                        == self@.types.insert(tname@, p.record_size)
                },
                Err(e) => save_spec(self@.types, tname@, payload@.len()) == Err::<
                    bool,
                    StoreError,
                >(e),
            },
    {
        proof {
            self.lemma_sizes();
        }
        let truncate = match self.record_size_of(tname) {
            Some(rs) => {
                if rs - INDEX_SIZE != payload.len() {
                    return Err(StoreError::SizeMismatch);
                }
                false
            },
            None => {
                if record_size(payload.len()).is_none() {
                    return Err(StoreError::TooLarge);
                }
                true
            },
        };
        Ok(
            SavePlan {
                path: self.file_path(tname),
                truncate,
                record_size: payload.len() + INDEX_SIZE,
            },
        )
    }

    /// Checks that type `tname` can be read from its file of `file_len` bytes,
    /// and gives its record size.
    fn prep_before_read(&self, tname: &String, file_len: u64) -> (r: Result<usize, StoreError>)
        requires
            self.wf(),
        ensures
            r == read_spec(self@.types, tname@, file_len as nat),
            r matches Ok(rs) ==> rs >= INDEX_SIZE,
    {
        proof {
            self.lemma_sizes();
        }
        match self.record_size_of(tname) {
            None => Err(StoreError::NotRegistered),
            Some(rs) => if file_len == 0 {
                Err(StoreError::Empty)
            } else {
                Ok(rs)
            },
        }
    }

    /// Locates the record at 1-based `position` of type `tname`, whose file
    /// holds `file_len` bytes. The caller reads `len` bytes from `offset` and
    /// hands them to `decode_payload`.
    pub fn get(&self, tname: &String, position: usize, file_len: u64) -> (r: Result<
        RecordSpan,
        StoreError,
    >)
        requires
            self.wf(),
        ensures
            match r {
                Ok(s) => get_spec(self@.types, tname@, position as nat, file_len as nat) == Ok::<
                    (int, int),
                    StoreError,
                >((s.offset as int, s.len as int)),
                Err(e) => get_spec(self@.types, tname@, position as nat, file_len as nat) == Err::<
                    (int, int),
                    StoreError,
                >(e),
            },
    {
        let rs = match self.prep_before_read(tname, file_len) {
            Ok(rs) => rs,
            Err(e) => {
                return Err(e);
            },
        };
        let count: u64 = file_len / (rs as u64);
        if position == 0 || position as u64 > count {
            return Err(StoreError::OutOfRange);
        }
        let p: u64 = (position - 1) as u64;
        proof {
            assert(p * rs <= count * rs) by (nonlinear_arith)
                requires p < count, rs > 0;
            assert(count * rs <= file_len) by (nonlinear_arith)
                requires count == file_len as int / rs as int, rs > 0;
        }
        Ok(RecordSpan { offset: p * (rs as u64), len: rs })
    }

    /// Scans the type file `file` of type `tname` into the payloads of its
    /// complete records, in the order they were saved.
    pub fn get_all(&self, tname: &String, file: &Vec<u8>) -> (r: Result<Vec<Vec<u8>>, StoreError>)
        requires
            self.wf(),
        ensures
            payloads_result(r) == get_all_spec(self@.types, tname@, file@),
    {
        let rs = match self.prep_before_read(tname, file.len() as u64) {
            Ok(rs) => rs,
            Err(e) => {
                return Err(e);
            },
        };
        let r = split_records(file, rs);
        assert(r@.map_values(|b: Vec<u8>| b@) =~= scan(file@, rs as nat));
        Ok(r)
    }
}

/// A save followed by a read of position 1 gives back the saved payload: the
/// first save of a type not yet registered creates its file with one record,
/// which the positional read finds at offset 0 and decodes, index stripped, into
/// the payload.
pub proof fn lemma_round_trip(
    types: Map<Seq<char>, usize>,
    name: Seq<char>,
    prior: Seq<u8>,
    record: Seq<u8>,
    v: Seq<u8>,
)
    requires
        !types.contains_key(name),
        v.len() + INDEX_SIZE <= usize::MAX,
        is_record_of(record, v),
    ensures
        save_spec(types, name, v.len()) == Ok::<bool, StoreError>(true),
        get_spec(
            types_after_save(types, name, v.len()),
            name,
            1,
            stored(prior, true, record).len(),
        ) == Ok::<(int, int), StoreError>((0, record.len() as int)),
        decode_spec(
            read_window(stored(prior, true, record), 0, record.len() as int),
            record.len(),
        ) == Ok::<Seq<u8>, StoreError>(v),
{
    let rs = record.len();
    assert(rs / rs == 1) by (nonlinear_arith)
        requires rs > 0;
    assert(read_window(record, 0, rs as int) =~= record);
}

/// Saves of one type come back from a full scan in the order they were made:
/// three saves of a type not yet registered, then a scan, give the three
/// payloads in order.
pub proof fn lemma_append_ordering(
    types: Map<Seq<char>, usize>,
    name: Seq<char>,
    prior: Seq<u8>,
    r1: Seq<u8>,
    r2: Seq<u8>,
    r3: Seq<u8>,
    v1: Seq<u8>,
    v2: Seq<u8>,
    v3: Seq<u8>,
)
    requires
        !types.contains_key(name),
        v1.len() + INDEX_SIZE <= usize::MAX,
        v2.len() == v1.len(),
        v3.len() == v1.len(),
        is_record_of(r1, v1),
        is_record_of(r2, v2),
        is_record_of(r3, v3),
    ensures
        ({
            let t1 = types_after_save(types, name, v1.len());
            let f1 = stored(prior, true, r1);
            let f2 = stored(f1, false, r2);
            let f3 = stored(f2, false, r3);
            &&& save_spec(types, name, v1.len()) == Ok::<bool, StoreError>(true)
            &&& save_spec(t1, name, v2.len()) == Ok::<bool, StoreError>(false)
            &&& types_after_save(t1, name, v2.len()) == t1
            &&& save_spec(t1, name, v3.len()) == Ok::<bool, StoreError>(false)
            &&& types_after_save(t1, name, v3.len()) == t1
            &&& get_all_spec(t1, name, f3) == Ok::<Seq<Seq<u8>>, StoreError>(seq![v1, v2, v3])
        }),
{
    let rs = r1.len();
    let f1 = r1;
    let f2 = r1 + r2;
    assert(rs % rs == 0 && rs / rs == 1) by (nonlinear_arith)
        requires rs > 0;
    assert(Seq::<u8>::empty() + r1 =~= r1);
    assert(0nat % rs == 0 && 0nat / rs == 0) by (nonlinear_arith)
        requires rs > 0;
    lemma_scan_append(Seq::<u8>::empty(), rs, r1);
    assert(f2.len() % rs == 0) by (nonlinear_arith)
        requires f2.len() == rs + rs, rs > 0;
    lemma_scan_append(f1, rs, r2);
    lemma_scan_append(f2, rs, r3);
    assert(scan(Seq::<u8>::empty(), rs) =~= Seq::<Seq<u8>>::empty());
    assert(scan(f2 + r3, rs) =~= seq![v1, v2, v3]);
}

/// After `n` saves, the `i`-th saved payload is at position `i` for each `i` in
/// `1..=n`, and position `n + 1` is out of range: stated of a type file that
/// holds exactly the `n >= 1` records whose payloads are `vs`.
pub proof fn lemma_positional_addressing(
    types: Map<Seq<char>, usize>,
    name: Seq<char>,
    file: Seq<u8>,
    vs: Seq<Seq<u8>>,
    i: int,
)
    requires
        types.contains_key(name),
        types[name] >= INDEX_SIZE,
        vs.len() >= 1,
        file.len() == vs.len() * types[name],
        scan(file, types[name] as nat) == vs,
        1 <= i <= vs.len(),
    ensures
        get_spec(types, name, i as nat, file.len()) == Ok::<(int, int), StoreError>(
            ((i - 1) * types[name], types[name] as int),
        ),
        decode_spec(read_window(file, (i - 1) * types[name], types[name] as int), types[name] as nat)
            == Ok::<Seq<u8>, StoreError>(vs[i - 1]),
        get_spec(types, name, (vs.len() + 1) as nat, file.len()) == Err::<(int, int), StoreError>(
            StoreError::OutOfRange,
        ),
{
    let rs = types[name] as nat;
    let n = vs.len();
    assert(file.len() / rs == n) by (nonlinear_arith)
        requires file.len() == n * rs, rs > 0;
    assert(file.len() > 0) by (nonlinear_arith)
        requires file.len() == n * rs, rs > 0, n >= 1;
    assert(i * rs <= n * rs && (i - 1) * rs + rs == i * rs && 0 <= (i - 1) * rs) by (nonlinear_arith)
        requires 1 <= i <= n, rs > 0;
    assert(read_window(file, (i - 1) * rs, rs as int) =~= file.subrange((i - 1) * rs, i * rs));
    assert(scan(file, rs)[i - 1] == payload_of(file.subrange((i - 1) * rs, i * rs)));
}

/// The type file after a run of saves of one type not yet registered, whose
/// records are `records`: the first creates the file afresh, each later one
/// appends to it.
pub open spec fn after_saves(prior: Seq<u8>, records: Seq<Seq<u8>>) -> Seq<u8>
    decreases records.len(),
{
    if records.len() == 0 {
        prior
    } else {
        stored(after_saves(prior, records.drop_last()), records.len() == 1, records.last())
    }
}

/// A run of `n >= 1` saves leaves a file of `n` whole records whose scan is the
/// saved payloads.
proof fn lemma_after_saves(prior: Seq<u8>, records: Seq<Seq<u8>>, vs: Seq<Seq<u8>>, rs: nat)
    requires
        records.len() >= 1,
        vs.len() == records.len(),
        rs >= INDEX_SIZE,
        forall|k: int| 0 <= k < records.len() ==> #[trigger] records[k].len() == rs,
        forall|k: int| 0 <= k < records.len() ==> is_record_of(#[trigger] records[k], vs[k]),
    ensures
        after_saves(prior, records).len() == records.len() * rs,
        after_saves(prior, records).len() % rs == 0,
        scan(after_saves(prior, records), rs) == vs,
    decreases records.len(),
{
    let n = records.len();
    let last = records.last();
    assert(is_record_of(records[n - 1], vs[n - 1]));
    if n == 1 {
        assert(rs % rs == 0 && rs / rs == 1 && 0nat % rs == 0 && 0nat / rs == 0) by (nonlinear_arith)
            requires rs > 0;
        assert(Seq::<u8>::empty() + last =~= last);
        lemma_scan_append(Seq::<u8>::empty(), rs, last);
        assert(scan(Seq::<u8>::empty(), rs) =~= Seq::<Seq<u8>>::empty());
        assert(scan(last, rs) =~= vs);
    } else {
        let f = after_saves(prior, records.drop_last());
        lemma_after_saves(prior, records.drop_last(), vs.drop_last(), rs);
        lemma_scan_append(f, rs, last);
        assert((f + last).len() == n * rs && (f + last).len() % rs == 0) by (nonlinear_arith)
            requires f.len() == (n - 1) * rs, last.len() == rs, rs > 0;
        assert(vs.drop_last().push(payload_of(last)) =~= vs);
    }
}

/// After `n >= 1` saves of payloads `vs` of one type not yet registered, every
/// save returns `Ok`, and the `i`-th saved payload is at position `i` for each
/// `i` in `1..=n`: read from bytes `[(i - 1) * rs, i * rs)` of the file with
/// the index field stripped. Position `n + 1` is out of range.
pub proof fn lemma_positional_after_saves(
    types: Map<Seq<char>, usize>,
    name: Seq<char>,
    prior: Seq<u8>,
    records: Seq<Seq<u8>>,
    vs: Seq<Seq<u8>>,
    i: int,
)
    requires
        !types.contains_key(name),
        records.len() >= 1,
        vs.len() == records.len(),
        vs[0].len() + INDEX_SIZE <= usize::MAX,
        forall|k: int| 0 <= k < vs.len() ==> (#[trigger] vs[k]).len() == vs[0].len(),
        forall|k: int| 0 <= k < records.len() ==> is_record_of(#[trigger] records[k], vs[k]),
        1 <= i <= vs.len(),
    ensures
        ({
            let len = vs[0].len();
            let rs = len + INDEX_SIZE;
            let t1 = types_after_save(types, name, len);
            let file = after_saves(prior, records);
            &&& save_spec(types, name, len) == Ok::<bool, StoreError>(true)
            &&& forall|k: int|
                1 <= k < vs.len() ==> save_spec(t1, name, (#[trigger] vs[k]).len()) == Ok::<
                    bool,
                    StoreError,
                >(false) && types_after_save(t1, name, vs[k].len()) == t1
            &&& get_spec(t1, name, i as nat, file.len()) == Ok::<(int, int), StoreError>(
                ((i - 1) * rs, rs),
            )
            &&& decode_spec(read_window(file, (i - 1) * rs, rs), rs as nat) == Ok::<
                Seq<u8>,
                StoreError,
            >(vs[i - 1])
            &&& get_spec(t1, name, (vs.len() + 1) as nat, file.len()) == Err::<
                (int, int),
                StoreError,
            >(StoreError::OutOfRange)
        }),
{
    let len = vs[0].len();
    let rs = (len + INDEX_SIZE) as usize;
    let t1 = types_after_save(types, name, len);
    assert forall|k: int| 0 <= k < records.len() implies #[trigger] records[k].len() == rs by {
        assert(is_record_of(records[k], vs[k]));
    }
    lemma_after_saves(prior, records, vs, rs as nat);
    lemma_positional_addressing(t1, name, after_saves(prior, records), vs, i);
}

/// The first save of a type in a store that has not registered it discards
/// whatever an earlier process left in the type's file: a scan afterwards
/// yields the new payload alone.
pub proof fn lemma_first_save_truncates(
    types: Map<Seq<char>, usize>,
    name: Seq<char>,
    prior: Seq<u8>,
    record: Seq<u8>,
    v: Seq<u8>,
)
    requires
        !types.contains_key(name),
        v.len() + INDEX_SIZE <= usize::MAX,
        is_record_of(record, v),
    ensures
        save_spec(types, name, v.len()) == Ok::<bool, StoreError>(true),
        stored(prior, true, record) == record,
        get_all_spec(types_after_save(types, name, v.len()), name, stored(prior, true, record))
            == Ok::<Seq<Seq<u8>>, StoreError>(seq![v]),
{
    let rs = record.len();
    assert(rs % rs == 0) by (nonlinear_arith)
        requires rs > 0;
    assert(Seq::<u8>::empty() + record =~= record);
    lemma_scan_append(Seq::<u8>::empty(), rs, record);
    assert(scan(Seq::<u8>::empty(), rs) =~= Seq::<Seq<u8>>::empty());
    assert(scan(record, rs) =~= seq![v]);
}

/// A full scan yields exactly one payload per complete record and ends there:
/// a trailing partial record, as a torn write leaves, adds nothing.
pub proof fn lemma_scan_termination(
    types: Map<Seq<char>, usize>,
    name: Seq<char>,
    file: Seq<u8>,
    tail: Seq<u8>,
)
    requires
        types.contains_key(name),
        types[name] >= INDEX_SIZE,
        (file + tail).len() > 0,
        file.len() % (types[name] as nat) == 0,
        tail.len() < types[name],
    ensures
        get_all_spec(types, name, file + tail) == Ok::<Seq<Seq<u8>>, StoreError>(
            scan(file, types[name] as nat),
        ),
        scan(file + tail, types[name] as nat).len() == file.len() / (types[name] as nat),
{
    lemma_scan_drops_partial_tail(file, types[name] as nat, tail);
}

} // verus!
