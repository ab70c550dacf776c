use vstd::prelude::*;

use crate::record::{format_line, lemma_parse_format, parse_line_spec, single_line, RecordError};
use crate::ulid::{encode_spec, lemma_prefix_digits, pow32, Ulid};

verus! {

/// The schema tag written into every partition file name.
pub const VERSION: &'static str = "20200603";

/// The partition of an identifier: the first six symbols of its canonical
/// text.
pub open spec fn bucket_of(id: u128) -> Seq<char> {
    encode_spec(id as nat).take(6)
}

/// The name of the partition file opened by identifier `id` for the writer
/// instance `writer`.
pub open spec fn file_name_spec(id: u128, writer: u128) -> Seq<char> {
    encode_spec(id as nat) + ".v"@ + VERSION@ + "."@ + encode_spec(writer as nat) + ".events.json"@
}

/// Whether a writer whose file was opened by `state.0` (if `state.1`, a file
/// is open) must open a new file before writing identifier `id`.
pub open spec fn needs_rotation(state: (u128, bool), id: u128) -> bool {
    !state.1 || bucket_of(state.0) != bucket_of(id)
}

/// What a writer must do before it appends a record.
pub enum WriteAction {
    /// Append to the file that is open.
    Append,
    /// Create directory `dir` under the root if it is absent, then create
    /// file `file` in it and append there.
    Rotate { dir: String, file: String },
}

/// The rotation state of a writer: the identifier that opened the current
/// file, and whether a file is open.
pub struct EventLoggerOutputState {
    prev_ulid: Ulid,
    has_file: bool,
}

impl View for EventLoggerOutputState {
    type V = (u128, bool);

    closed spec fn view(&self) -> (u128, bool) {
        (self.prev_ulid@, self.has_file)
    }
}

/// The partition key of `id`.
pub fn bucket_key(id: &Ulid) -> (r: String)
    ensures
        r@ == bucket_of(id@),
{
    let text = id.to_string();
    String::from_str(text.as_str().substring_char(0, 6))
}

/// The partition file name for records opened by `id` from writer instance
/// `writer`.
pub fn file_name(id: &Ulid, writer: &Ulid) -> (r: String)
    ensures
        r@ == file_name_spec(id@, writer@),
{
    let mut name = id.to_string();
    name.append(".v");
    name.append(VERSION);
    name.append(".");
    let w = writer.to_string();
    name.append(w.as_str());
    name.append(".events.json");
    name
}

impl EventLoggerOutputState {
    /// A writer with no file open.
    pub fn new() -> (r: EventLoggerOutputState)
        ensures
            r@ == (0u128, false),
    {
        EventLoggerOutputState { prev_ulid: Ulid::from_u128(0), has_file: false }
    }

    /// Decides where the record with identifier `id` goes: into the open
    /// file, or into a new file when none is open or the partition changed.
    pub fn next_action(&self, id: &Ulid, writer: &Ulid) -> (r: WriteAction)
        ensures
            !needs_rotation(self@, id@) ==> r is Append,
            needs_rotation(self@, id@) ==> (r matches WriteAction::Rotate { dir, file } && dir@
                == bucket_of(id@) && file@ == file_name_spec(id@, writer@)),
    {
        let now = bucket_key(id);
        if self.has_file {
            let prev = bucket_key(&self.prev_ulid);
            if prev == now {
                return WriteAction::Append;
            }
        }
        WriteAction::Rotate { dir: now, file: file_name(id, writer) }
    }

    /// Records that the file for identifier `id` was created and is open.
    pub fn opened(&mut self, id: &Ulid)
        ensures
            final(self)@ == (id@, true),
    {
        self.prev_ulid = *id;
        self.has_file = true;
    }
}

/// Two identifiers share a partition exactly when they agree above their
/// lowest 100 bits: the partition is the top 28 bits of the millisecond
/// field, about 17.5 minutes.
pub proof fn lemma_bucket_bits(x: u128, y: u128)
    ensures
        bucket_of(x) == bucket_of(y) <==> x as nat / pow32(20) == y as nat / pow32(20),
        pow32(20) == 0x10_0000_0000_0000_0000_0000_0000,
{
    lemma_prefix_digits(x, y, 6);
    reveal_with_fuel(pow32, 21);
}

/// Once a file is open, a record of the same partition is appended to it
/// and a record of another partition opens a new file in a directory named
/// otherwise than the open one's.
pub proof fn lemma_rotation(first: u128, next: u128)
    ensures
        bucket_of(first) == bucket_of(next) ==> !needs_rotation((first, true), next),
        bucket_of(first) != bucket_of(next) ==> needs_rotation((first, true), next),
        !needs_rotation((first, true), first),
{
}


/// The rotation state after records with identifiers `ids` were written in
/// turn, each file creation succeeding.
pub open spec fn state_after(state: (u128, bool), ids: Seq<u128>) -> (u128, bool)
    decreases ids.len(),
{
    if ids.len() == 0 {
        state
    } else {
        let before = state_after(state, ids.drop_last());
        if needs_rotation(before, ids.last()) {
            (ids.last(), true)
        } else {
            before
        }
    }
}

/// How many files are created while records with identifiers `ids` are
/// written in turn.
pub open spec fn files_opened(state: (u128, bool), ids: Seq<u128>) -> nat
    decreases ids.len(),
{
    if ids.len() == 0 {
        0
    } else {
        let before = state_after(state, ids.drop_last());
        files_opened(state, ids.drop_last()) + if needs_rotation(before, ids.last()) {
            1nat
        } else {
            0nat
        }
    }
}

proof fn lemma_one_partition_prefix(ids: Seq<u128>, k: int)
    requires
        1 <= k <= ids.len(),
        forall|i: int| 0 <= i < ids.len() ==> bucket_of(#[trigger] ids[i]) == bucket_of(ids[0]),
    ensures
        state_after((0u128, false), ids.take(k)) == (ids[0], true),
        files_opened((0u128, false), ids.take(k)) == 1,
    decreases k,
{
    let t = ids.take(k);
    assert(t.last() == ids[k - 1]);
    if k == 1 {
        assert(t.drop_last() =~= Seq::<u128>::empty());
        assert(state_after((0u128, false), t.drop_last()) == (0u128, false));
        assert(files_opened((0u128, false), t.drop_last()) == 0);
    } else {
        lemma_one_partition_prefix(ids, k - 1);
        assert(t.drop_last() =~= ids.take(k - 1));
        assert(bucket_of(ids[k - 1]) == bucket_of(ids[0]));
        assert(!needs_rotation((ids[0], true), ids[k - 1]));
    }
}

/// A fresh writer that writes records all of one partition creates one
/// file, opened by the first record, and appends every later record to it;
/// each line written reads back as its record, so reading the file yields
/// the records in the order they were written.
pub proof fn lemma_one_partition_one_file(
    records: Seq<(u128, Seq<char>, Seq<char>, Seq<char>)>,
)
    requires
        records.len() > 0,
        forall|i: int|
            0 <= i < records.len() ==> bucket_of(#[trigger] records[i].0) == bucket_of(records[0].0),
        forall|i: int| 0 <= i < records.len() ==> single_line(#[trigger] records[i].3),
    ensures
        ({
            let ids = records.map_values(|r: (u128, Seq<char>, Seq<char>, Seq<char>)| r.0);
            &&& files_opened((0u128, false), ids) == 1
            &&& state_after((0u128, false), ids) == (records[0].0, true)
        }),
        forall|i: int|
            0 <= i < records.len() ==> parse_line_spec(
                format_line(records[i].0, records[i].1, records[i].2, records[i].3),
            ) == Ok::<(u128, Seq<char>, Seq<char>, Seq<char>), RecordError>(#[trigger] records[i]),
{
    let ids = records.map_values(|r: (u128, Seq<char>, Seq<char>, Seq<char>)| r.0);
    assert forall|i: int| 0 <= i < ids.len() implies bucket_of(#[trigger] ids[i]) == bucket_of(
        ids[0],
    ) by {
        assert(ids[i] == records[i].0);
    }
    lemma_one_partition_prefix(ids, ids.len() as int);
    assert(ids.take(ids.len() as int) =~= ids);
    assert forall|i: int| 0 <= i < records.len() implies parse_line_spec(
        format_line(records[i].0, records[i].1, records[i].2, records[i].3),
    ) == Ok::<(u128, Seq<char>, Seq<char>, Seq<char>), RecordError>(#[trigger] records[i]) by {
        lemma_parse_format(records[i].0, records[i].1, records[i].2, records[i].3);
    }
}

} // verus!
