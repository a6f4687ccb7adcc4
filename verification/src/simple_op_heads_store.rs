//! Operation heads that are kept as files in a directory, each named like the
//! operation in hexadecimal.
//!
//! The directory is read and changed elsewhere: here is what its files mean,
//! and which files are added and removed.

use vstd::prelude::*;

use crate::text::chars_of;
use crate::text::concat;
use crate::text::lemma_texts_push;
use crate::text::texts;

verus! {

/// An operation.
#[derive(Debug, PartialEq, Eq)]
pub struct OperationId {
    /// The bytes of the hash of the operation.
    pub bytes: Vec<u8>,
}

/// The digit for a number below sixteen.
pub open spec fn hex_digit(value: int) -> char {
    if value < 10 {
        ('0' as int + value) as char
    } else {
        ('a' as int + value - 10) as char
    }
}

/// The bytes in hexadecimal, in lower case.
pub open spec fn hex_text(bytes: Seq<u8>) -> Seq<char>
    decreases bytes.len(),
{
    if bytes.len() == 0 {
        Seq::empty()
    } else {
        hex_text(bytes.drop_last()).push(hex_digit(bytes.last() as int / 16)).push(
            hex_digit(bytes.last() as int % 16),
        )
    }
}

/// The number that a digit stands for, in lower or upper case.
pub open spec fn hex_value(digit: char) -> Option<int> {
    if '0' <= digit <= '9' {
        Some(digit as int - '0' as int)
    } else if 'a' <= digit <= 'f' {
        Some(digit as int - 'a' as int + 10)
    } else if 'A' <= digit <= 'F' {
        Some(digit as int - 'A' as int + 10)
    } else {
        None
    }
}

/// The bytes that a text stands for in hexadecimal, if it does: it is made of
/// pairs of digits.
pub open spec fn hex_bytes(text: Seq<char>) -> Option<Seq<u8>>
    decreases text.len(),
{
    if text.len() == 0 {
        Some(Seq::empty())
    } else if text.len() == 1 {
        None
    } else {
        let high = hex_value(text[text.len() - 2]);
        let low = hex_value(text[text.len() - 1]);
        match hex_bytes(text.take(text.len() - 2)) {
            Some(front) if high is Some && low is Some => Some(
                front.push((high->Some_0 * 16 + low->Some_0) as u8),
            ),
            _ => None,
        }
    }
}

/// What is written in hexadecimal is read back.
pub proof fn lemma_hex_read_back(bytes: Seq<u8>)
    ensures
        hex_bytes(hex_text(bytes)) == Some(bytes),
    decreases bytes.len(),
{
    let text = hex_text(bytes);
    if bytes.len() > 0 {
        let front = bytes.drop_last();
        let last = bytes.last();
        lemma_hex_read_back(front);
        assert(text.take(text.len() - 2) =~= hex_text(front));
        assert(hex_value(hex_digit(last as int / 16)) == Some(last as int / 16));
        assert(hex_value(hex_digit(last as int % 16)) == Some(last as int % 16));
        assert(bytes =~= front.push(last));
    }
}

fn digit_of(value: u8) -> (digit: char)
    requires
        value < 16,
    ensures
        digit == hex_digit(value as int),
{
    if value < 10 {
        (48 + value) as char
    } else {
        (87 + value) as char
    }
}

fn value_of(digit: char) -> (value: Option<u8>)
    ensures
        match value {
            Some(value) => hex_value(digit) == Some(value as int) && value < 16,
            None => hex_value(digit) is None,
        },
{
    if '0' <= digit && digit <= '9' {
        Some((digit as u32 - 48) as u8)
    } else if 'a' <= digit && digit <= 'f' {
        Some((digit as u32 - 87) as u8)
    } else if 'A' <= digit && digit <= 'F' {
        Some((digit as u32 - 55) as u8)
    } else {
        None
    }
}

/// Decodes a text in hexadecimal.
pub fn decode_hex(text: &str) -> (bytes: Option<Vec<u8>>)
    ensures
        match bytes {
            Some(bytes) => hex_bytes(text@) == Some(bytes@),
            None => hex_bytes(text@) is None,
        },
{
    let chars: Vec<char> = chars_of(text);
    let mut bytes: Vec<u8> = Vec::new();
    let mut i: usize = 0;
    let len: usize = chars.len();
    assert(hex_bytes(chars@.take(0)) == Some(bytes@)) by {
        assert(bytes@ =~= Seq::<u8>::empty());
    }
    while len - i >= 2
        invariant
            i <= len,
            i % 2 == 0,
            len == chars@.len(),
            chars@ == text@,
            hex_bytes(chars@.take(i as int)) == Some(bytes@),
        decreases len - i,
    {
        let ghost now = chars@.take(i + 2);
        proof {
            assert(now.take(now.len() - 2) =~= chars@.take(i as int));
        }
        match (value_of(chars[i]), value_of(chars[i + 1])) {
            (Some(high), Some(low)) => {
                bytes.push(high * 16 + low);
            },
            _ => {
                proof {
                    lemma_not_hex(text@, i + 2);
                }
                return None;
            },
        }
        i += 2;
    }
    if i < len {
        proof {
            lemma_odd_is_not_hex(text@);
        }
        return None;
    }
    assert(chars@.take(i as int) =~= text@);
    Some(bytes)
}

/// A text whose beginning is wrong is wrong.
proof fn lemma_not_hex(text: Seq<char>, end: int)
    requires
        0 <= end <= text.len(),
        end % 2 == 0,
        hex_bytes(text.take(end)) is None,
    ensures
        hex_bytes(text) is None,
    decreases text.len(),
{
    if end == text.len() {
        assert(text.take(end) =~= text);
    } else if text.len() - end >= 2 {
        let front = text.take(text.len() - 2);
        assert(front.take(end) =~= text.take(end));
        lemma_not_hex(front, end);
    } else {
        lemma_odd_is_not_hex(text);
    }
}

proof fn lemma_odd_is_not_hex(text: Seq<char>)
    requires
        text.len() % 2 == 1,
    ensures
        hex_bytes(text) is None,
    decreases text.len(),
{
    if text.len() > 1 {
        lemma_odd_is_not_hex(text.take(text.len() - 2));
    }
}

impl OperationId {
    /// Reads an operation in hexadecimal.
    pub fn from_hex(text: &str) -> (id: Option<Self>)
        ensures
            match id {
                Some(id) => hex_bytes(text@) == Some(id.bytes@),
                None => hex_bytes(text@) is None,
            },
    {
        match decode_hex(text) {
            Some(bytes) => Some(OperationId { bytes }),
            None => None,
        }
    }

    /// Returns the operation in hexadecimal.
    pub fn hex(&self) -> (text: String)
        ensures
            text@ == hex_text(self.bytes@),
    {
        let mut text: String = String::new();
        let mut i: usize = 0;
        assert(text@ =~= hex_text(self.bytes@.take(0)));
        while i < self.bytes.len()
            invariant
                i <= self.bytes@.len(),
                text@ == hex_text(self.bytes@.take(i as int)),
            decreases self.bytes@.len() - i,
        {
            assert(self.bytes@.take(i + 1).drop_last() =~= self.bytes@.take(i as int));
            text.push(digit_of(self.bytes[i] / 16));
            text.push(digit_of(self.bytes[i] % 16));
            i += 1;
        }
        assert(self.bytes@.take(i as int) =~= self.bytes@);
        text
    }

    fn copy(&self) -> (copy: Self)
        ensures
            copy.bytes@ == self.bytes@,
    {
        let bytes: Vec<u8> = vstd::slice::slice_to_vec(self.bytes.as_slice());
        OperationId { bytes }
    }
}

/// Whether bytes come before others: byte by byte, and what is shorter first.
pub open spec fn bytes_less(a: Seq<u8>, b: Seq<u8>) -> bool
    decreases b.len(),
{
    if b.len() == 0 {
        false
    } else if a.len() == 0 {
        true
    } else {
        a[0] < b[0] || (a[0] == b[0] && bytes_less(a.skip(1), b.skip(1)))
    }
}

/// Whether operations are in order.
pub open spec fn is_sorted(ids: Seq<Seq<u8>>) -> bool {
    forall|i: int, j: int|
        0 <= i < j < ids.len() ==> !bytes_less(#[trigger] ids[j], #[trigger] ids[i])
}

proof fn lemma_bytes_order(a: Seq<u8>, b: Seq<u8>)
    ensures
        !(bytes_less(a, b) && bytes_less(b, a)),
    decreases a.len(),
{
    if a.len() > 0 && b.len() > 0 {
        lemma_bytes_order(a.skip(1), b.skip(1));
    }
}

/// What does not come before something does not come before what is before it.
proof fn lemma_bytes_order_transitive(a: Seq<u8>, b: Seq<u8>, c: Seq<u8>)
    requires
        !bytes_less(b, a),
        !bytes_less(c, b),
    ensures
        !bytes_less(c, a),
    decreases a.len(),
{
    if a.len() > 0 && b.len() > 0 && c.len() > 0 && a[0] == b[0] && b[0] == c[0] {
        lemma_bytes_order_transitive(a.skip(1), b.skip(1), c.skip(1));
    }
}

fn comes_before(a: &Vec<u8>, b: &Vec<u8>) -> (less: bool)
    ensures
        less == bytes_less(a@, b@),
{
    let mut i: usize = 0;
    assert(a@.skip(0) =~= a@);
    assert(b@.skip(0) =~= b@);
    while i < a.len() && i < b.len()
        invariant
            i <= a@.len(),
            i <= b@.len(),
            bytes_less(a@, b@) == bytes_less(a@.skip(i as int), b@.skip(i as int)),
        decreases a@.len() - i,
    {
        assert(a@.skip(i as int)[0] == a@[i as int]);
        assert(b@.skip(i as int)[0] == b@[i as int]);
        assert(a@.skip(i as int).skip(1) =~= a@.skip(i + 1));
        assert(b@.skip(i as int).skip(1) =~= b@.skip(i + 1));
        if a[i] != b[i] {
            return a[i] < b[i];
        }
        i += 1;
    }
    i < b.len()
}

/// What can be seen of operations.
pub open spec fn ids_view(ids: Seq<OperationId>) -> Seq<Seq<u8>> {
    ids.map_values(|id: OperationId| id.bytes@)
}

/// Adds an operation to operations in order.
fn insert_sorted(ids: &mut Vec<OperationId>, id: OperationId)
    requires
        is_sorted(ids_view(old(ids)@)),
    ensures
        is_sorted(ids_view(final(ids)@)),
        ids_view(final(ids)@).to_multiset() == ids_view(old(ids)@).to_multiset().insert(id.bytes@),
        final(ids)@.len() == old(ids)@.len() + 1,
{
    let ghost before = ids_view(ids@);
    let ghost new = id.bytes@;
    let mut i: usize = ids.len();
    while i > 0 && comes_before(&id.bytes, &ids[i - 1].bytes)
        invariant
            i <= ids@.len(),
            before == ids_view(ids@),
            new == id.bytes@,
            forall|j: int| i <= j < before.len() ==> bytes_less(new, #[trigger] before[j]),
        decreases i,
    {
        assert(before[i - 1] == ids@[i - 1].bytes@);
        i -= 1;
    }
    proof {
        if i > 0 {
            assert(before[i - 1] == ids@[i - 1].bytes@);
        }
    }
    ids.insert(i, id);
    proof {
        let after = ids_view(ids@);
        assert(after =~= before.insert(i as int, new));
        vstd::seq_lib::to_multiset_insert(before, i as int, new);
        assert forall|a: int, b: int| 0 <= a < b < after.len() implies !bytes_less(
            #[trigger] after[b],
            #[trigger] after[a],
        ) by {
            if a == i {
                lemma_bytes_order(new, before[b - 1]);
            } else if b == i {
                if a < i - 1 {
                    assert(!bytes_less(before[i - 1], before[a]));
                    lemma_bytes_order_transitive(before[a], before[i - 1], new);
                }
            } else if a > i {
                assert(!bytes_less(before[b - 1], before[a - 1]));
            } else if b > i {
                assert(!bytes_less(before[b - 1], before[a]));
            }
        }
    }
}

/// Error that may occur during [`SimpleOpHeadsStore`] initialization.
#[derive(Debug, PartialEq, Eq)]
pub struct SimpleOpHeadsStoreInitError {
    /// What went wrong with a path.
    pub source: String,
}

impl SimpleOpHeadsStoreInitError {
    /// Returns the error in words.
    pub fn message(&self) -> (message: &'static str)
        ensures
            message@ == "Failed to initialize simple operation heads store"@,
    {
        "Failed to initialize simple operation heads store"
    }
}

/// Why operation heads could not be read or written.
#[derive(Debug, PartialEq, Eq)]
pub enum OpHeadsStoreError {
    /// They could not be read.
    Read(String),
    /// They could not be written.
    Write {
        /// The operation that should have become the head.
        new_op_id: OperationId,
        /// What went wrong.
        source: String,
    },
    /// They could not be locked.
    Lock(String),
}

/// What was found in the directory.
#[derive(Debug, PartialEq, Eq)]
pub enum DirEntry {
    /// A file.
    Named(String),
    /// A file whose name is not valid UTF-8, as it is shown for debugging.
    NotUtf8(String),
    /// Something that could not be read, and why.
    Failed(String),
}

/// The operations whose names files have.
pub open spec fn named_ids(entries: Seq<DirEntry>) -> Seq<Seq<u8>>
    decreases entries.len(),
{
    if entries.len() == 0 {
        Seq::empty()
    } else {
        let front = named_ids(entries.drop_last());
        match entries.last() {
            DirEntry::Named(name) => match hex_bytes(name@) {
                Some(bytes) => front.push(bytes),
                None => front,
            },
            _ => front,
        }
    }
}

/// What is said of the first file that cannot be read.
pub open spec fn first_failure(entries: Seq<DirEntry>) -> Option<Seq<char>>
    decreases entries.len(),
{
    if entries.len() == 0 {
        None
    } else {
        match first_failure(entries.drop_last()) {
            Some(message) => Some(message),
            None => match entries.last() {
                DirEntry::Named(_) => None,
                DirEntry::NotUtf8(name) => Some("Non-utf8 in op head file name: "@ + name@),
                DirEntry::Failed(message) => Some(message@),
            },
        }
    }
}

/// A change to the files.
#[derive(Debug, PartialEq, Eq)]
pub enum HeadChange {
    /// A file is added, or stays if it is there.
    Add(OperationId),
    /// A file is removed, if it is there.
    Remove(OperationId),
}

/// The heads after changes.
pub open spec fn after_changes(heads: Set<Seq<u8>>, changes: Seq<HeadChange>) -> Set<Seq<u8>>
    decreases changes.len(),
{
    if changes.len() == 0 {
        heads
    } else {
        let front = after_changes(heads, changes.drop_last());
        match changes.last() {
            HeadChange::Add(id) => front.insert(id.bytes@),
            HeadChange::Remove(id) => front.remove(id.bytes@),
        }
    }
}

/// The changes that replace heads with a new one. The new one is added first,
/// and stays if it is one of the old ones.
pub open spec fn is_update(
    old_ids: Seq<Seq<u8>>,
    new_id: Seq<u8>,
    changes: Seq<HeadChange>,
) -> bool
    decreases old_ids.len(),
{
    if old_ids.len() == 0 {
        changes.len() == 1 && (changes[0] matches HeadChange::Add(id) && id.bytes@ == new_id)
    } else if old_ids.last() == new_id {
        is_update(old_ids.drop_last(), new_id, changes)
    } else {
        changes.len() > 0 && (changes.last() matches HeadChange::Remove(id) && id.bytes@
            == old_ids.last()) && is_update(old_ids.drop_last(), new_id, changes.drop_last())
    }
}

/// Replacing heads makes the new one a head, and leaves the others that are not
/// replaced.
pub proof fn lemma_update(
    heads: Set<Seq<u8>>,
    old_ids: Seq<Seq<u8>>,
    new_id: Seq<u8>,
    changes: Seq<HeadChange>,
)
    requires
        is_update(old_ids, new_id, changes),
    ensures
        forall|id: Seq<u8>| #[trigger]
            after_changes(heads, changes).contains(id) <==> id == new_id || (heads.contains(id)
                && !old_ids.contains(id)),
    decreases old_ids.len(),
{
    if old_ids.len() == 0 {
        assert(after_changes(heads, changes.drop_last()) == heads);
    } else {
        let front = old_ids.drop_last();
        let last = old_ids.last();
        assert(old_ids =~= front.push(last));
        assert forall|id: Seq<u8>| #[trigger] old_ids.contains(id) <==> front.contains(id) || id
            == last by {
            crate::seq_util::lemma_push_contains(front, last, id);
        }
        if last == new_id {
            lemma_update(heads, front, new_id, changes);
        } else {
            lemma_update(heads, front, new_id, changes.drop_last());
            let before = after_changes(heads, changes.drop_last());
            assert(after_changes(heads, changes) == before.remove(last));
            assert forall|id: Seq<u8>| #[trigger] after_changes(heads, changes).contains(id)
                <==> id == new_id || (heads.contains(id) && !old_ids.contains(id)) by {
                assert(before.contains(id) <==> id == new_id || (heads.contains(id)
                    && !front.contains(id)));
            }
        }
    }
}

/// Keeps operation heads in a directory.
#[derive(Debug, PartialEq, Eq)]
pub struct SimpleOpHeadsStore {
    /// The parts of the path of the directory.
    pub dir: Vec<String>,
}

impl SimpleOpHeadsStore {
    /// Returns the name of the store.
    pub fn name() -> (name: &'static str)
        ensures
            name@ == "simple_op_heads_store"@,
    {
        "simple_op_heads_store"
    }

    /// Uses the files below a directory.
    pub fn load(dir: &str) -> (store: Self)
        ensures
            texts(store.dir@) == seq![dir@, "heads"@],
    {
        let mut parts: Vec<String> = Vec::new();
        parts.push(dir.to_owned());
        parts.push("heads".to_owned());
        assert(texts(parts@) =~= seq![dir@, "heads"@]);
        SimpleOpHeadsStore { dir: parts }
    }

    /// Returns the parts of the path of a file in the directory.
    fn file(&self, name: String) -> (path: Vec<String>)
        ensures
            texts(path@) == texts(self.dir@).push(name@),
    {
        let mut path: Vec<String> = crate::text::copy_texts(&self.dir);
        proof {
            lemma_texts_push(path@, name);
        }
        path.push(name);
        path
    }

    /// Returns the path of the file of a head.
    pub fn head_path(&self, id: &OperationId) -> (path: Vec<String>)
        ensures
            texts(path@) == texts(self.dir@).push(hex_text(id.bytes@)),
    {
        self.file(id.hex())
    }

    /// Returns the path of the file that is locked while heads are changed.
    pub fn lock_path(&self) -> (path: Vec<String>)
        ensures
            texts(path@) == texts(self.dir@).push("lock"@),
    {
        self.file("lock".to_owned())
    }

    /// Returns what is done to the files to replace heads with a new one.
    pub fn update_op_heads(&self, old_ids: &[OperationId], new_id: &OperationId) -> (changes: Vec<
        HeadChange,
    >)
        ensures
            is_update(ids_view(old_ids@), new_id.bytes@, changes@),
    {
        let mut changes: Vec<HeadChange> = Vec::new();
        changes.push(HeadChange::Add(new_id.copy()));
        let ghost all = ids_view(old_ids@);
        let mut i: usize = 0;
        while i < old_ids.len()
            invariant
                i <= old_ids@.len(),
                all == ids_view(old_ids@),
                is_update(all.take(i as int), new_id.bytes@, changes@),
            decreases old_ids@.len() - i,
        {
            let ghost before = changes@;
            assert(all.take(i + 1).drop_last() =~= all.take(i as int));
            assert(all.take(i + 1).last() == old_ids@[i as int].bytes@);
            if !same_id(&old_ids[i], new_id) {
                changes.push(HeadChange::Remove(old_ids[i].copy()));
                assert(changes@.drop_last() =~= before);
            }
            i += 1;
        }
        assert(all.take(i as int) =~= all);
        changes
    }

    /// Tells whether the removal of a file has failed. It's fine if the old head
    /// was not found. It probably means that we're on a distributed file system
    /// where the locking doesn't work. We'll probably end up with two current
    /// heads. We'll detect that next time we load the view.
    pub fn removal_failed(removed: bool, not_found: bool) -> (failed: bool)
        ensures
            failed == (!removed && !not_found),
    {
        !removed && !not_found
    }

    /// Returns the heads, given what was found in the directory. There is at
    /// least one, and they are in order.
    pub fn get_op_heads(&self, entries: &[DirEntry]) -> (heads: Result<
        Vec<OperationId>,
        OpHeadsStoreError,
    >)
        ensures
            match heads {
                Ok(heads) => {
                    &&& first_failure(entries@) is None
                    &&& heads@.len() > 0
                    &&& is_sorted(ids_view(heads@))
                    &&& ids_view(heads@).to_multiset() == named_ids(entries@).to_multiset()
                },
                Err(error) => error matches OpHeadsStoreError::Read(message) && (match first_failure(
                    entries@,
                ) {
                    Some(failure) => message@ == failure,
                    None => named_ids(entries@).len() == 0 && message@
                        == "Corrupt repository: no head operation"@,
                }),
            },
    {
        broadcast use vstd::seq_lib::group_to_multiset_ensures;

        let mut heads: Vec<OperationId> = Vec::new();
        let mut i: usize = 0;
        assert(ids_view(heads@) =~= named_ids(entries@.take(0)));
        while i < entries.len()
            invariant
                i <= entries@.len(),
                first_failure(entries@.take(i as int)) is None,
                is_sorted(ids_view(heads@)),
                heads@.len() == named_ids(entries@.take(i as int)).len(),
                ids_view(heads@).to_multiset() == named_ids(
                    entries@.take(i as int),
                ).to_multiset(),
            decreases entries@.len() - i,
        {
            let ghost before = named_ids(entries@.take(i as int));
            assert(entries@.take(i + 1).drop_last() =~= entries@.take(i as int));
            match &entries[i] {
                DirEntry::Named(name) => {
                    if let Some(bytes) = decode_hex(name.as_str()) {
                        proof {
                            vstd::seq_lib::to_multiset_build(before, bytes@);
                        }
                        insert_sorted(&mut heads, OperationId { bytes });
                    }
                },
                DirEntry::NotUtf8(name) => {
                    proof {
                        lemma_failure_stays(entries@, i + 1);
                    }
                    return Err(
                        OpHeadsStoreError::Read(
                            concat("Non-utf8 in op head file name: ", name.as_str()),
                        ),
                    );
                },
                DirEntry::Failed(message) => {
                    proof {
                        lemma_failure_stays(entries@, i + 1);
                    }
                    return Err(OpHeadsStoreError::Read(message.clone()));
                },
            }
            i += 1;
        }
        assert(entries@.take(i as int) =~= entries@);
        if heads.len() == 0 {
            Err(OpHeadsStoreError::Read("Corrupt repository: no head operation".to_owned()))
        } else {
            Ok(heads)
        }
    }
}

proof fn lemma_failure_stays(entries: Seq<DirEntry>, end: int)
    requires
        0 <= end <= entries.len(),
        first_failure(entries.take(end)) is Some,
    ensures
        first_failure(entries) == first_failure(entries.take(end)),
    decreases entries.len(),
{
    if end == entries.len() {
        assert(entries.take(end) =~= entries);
    } else {
        assert(entries.drop_last().take(end) =~= entries.take(end));
        lemma_failure_stays(entries.drop_last(), end);
    }
}

fn same_id(a: &OperationId, b: &OperationId) -> (same: bool)
    ensures
        same == (a.bytes@ == b.bytes@),
{
    if a.bytes.len() != b.bytes.len() {
        return false;
    }
    let mut i: usize = 0;
    while i < a.bytes.len()
        invariant
            i <= a.bytes@.len(),
            a.bytes@.len() == b.bytes@.len(),
            forall|k: int| 0 <= k < i ==> a.bytes@[k] == b.bytes@[k],
        decreases a.bytes@.len() - i,
    {
        if a.bytes[i] != b.bytes[i] {
            return false;
        }
        i += 1;
    }
    assert(a.bytes@ =~= b.bytes@);
    true
}

/// Each byte is written as two digits in lower case, the high one first.
pub proof fn lemma_hex_text(bytes: Seq<u8>, i: int)
    requires
        0 <= i < bytes.len(),
    ensures
        hex_text(bytes).len() == 2 * bytes.len(),
        hex_text(bytes)[2 * i] == "0123456789abcdef"@[bytes[i] as int / 16],
        hex_text(bytes)[2 * i + 1] == "0123456789abcdef"@[bytes[i] as int % 16],
    decreases bytes.len(),
{
    reveal_strlit("0123456789abcdef");
    let front = bytes.drop_last();
    lemma_hex_len(front);
    if i < front.len() {
        lemma_hex_text(front, i);
    }
}

proof fn lemma_hex_len(bytes: Seq<u8>)
    ensures
        hex_text(bytes).len() == 2 * bytes.len(),
    decreases bytes.len(),
{
    if bytes.len() > 0 {
        lemma_hex_len(bytes.drop_last());
    }
}

/// A digit stands for its place in the row of digits, in lower or upper case.
pub proof fn lemma_hex_value(digit: char, value: int)
    ensures
        hex_value(digit) == Some(value) <==> 0 <= value < 16 && ("0123456789abcdef"@[value] == digit
            || "0123456789ABCDEF"@[value] == digit),
{
    reveal_strlit("0123456789abcdef");
    reveal_strlit("0123456789ABCDEF");
}

/// A text stands for bytes if it is made of pairs of digits, one pair for each
/// byte.
pub proof fn lemma_hex_bytes(text: Seq<char>, i: int)
    requires
        0 <= i < text.len(),
    ensures
        hex_bytes(text) matches Some(bytes) ==> {
            &&& text.len() == 2 * bytes.len()
            &&& hex_value(text[i]) is Some
            &&& i % 2 == 0 ==> bytes[i / 2] as int / 16 == hex_value(text[i])->Some_0
            &&& i % 2 == 1 ==> bytes[i / 2] as int % 16 == hex_value(text[i])->Some_0
        },
        text.len() % 2 == 0 && (forall|k: int|
            0 <= k < text.len() ==> hex_value(#[trigger] text[k]) is Some) ==> hex_bytes(
            text,
        ) is Some,
    decreases text.len(),
{
    if text.len() > 1 {
        let front = text.take(text.len() - 2);
        let last = text.len() - 1;
        if front.len() > 0 {
            let k = if i < front.len() {
                i
            } else {
                0
            };
            assert(front[k] == text[k]);
            lemma_hex_bytes(front, k);
            if forall|k: int| 0 <= k < text.len() ==> hex_value(#[trigger] text[k]) is Some {
                assert forall|k: int| 0 <= k < front.len() implies hex_value(
                    #[trigger] front[k],
                ) is Some by {
                    assert(front[k] == text[k]);
                }
            }
        } else {
            assert(hex_bytes(front) == Some(Seq::<u8>::empty()));
        }
        assert(hex_value(text[last - 1]) is Some && hex_value(text[last]) is Some ==> 0
            <= hex_value(text[last - 1])->Some_0 < 16 && 0 <= hex_value(text[last])->Some_0 < 16);
        if let Some(bytes) = hex_bytes(text) {
            let fewer = hex_bytes(front)->Some_0;
            assert(bytes == fewer.push(
                (hex_value(text[last - 1])->Some_0 * 16 + hex_value(text[last])->Some_0) as u8,
            ));
            assert(front.len() == 2 * fewer.len());
            if i < front.len() {
                assert(bytes[i / 2] == fewer[i / 2]);
            }
        }
    }
}

/// The first byte that differs decides which bytes come first, and what is
/// shorter comes before what it is the beginning of.
pub proof fn lemma_bytes_less(common: Seq<u8>, a: Seq<u8>, b: Seq<u8>)
    requires
        a.len() > 0 && b.len() > 0 ==> a[0] != b[0],
    ensures
        bytes_less(common + a, common + b) <==> b.len() > 0 && (a.len() == 0 || a[0] < b[0]),
    decreases common.len(),
{
    if common.len() == 0 {
        assert(common + a =~= a);
        assert(common + b =~= b);
    } else {
        assert((common + a).skip(1) =~= common.skip(1) + a);
        assert((common + b).skip(1) =~= common.skip(1) + b);
        lemma_bytes_less(common.skip(1), a, b);
    }
}

/// The heads are the operations that files are named after, and no others.
/// Files with other names do not matter.
pub proof fn lemma_named_ids(entries: Seq<DirEntry>, id: Seq<u8>)
    ensures
        named_ids(entries).contains(id) <==> exists|i: int|
            0 <= i < entries.len() && (#[trigger] entries[i] matches DirEntry::Named(name)
                && hex_bytes(name@) == Some(id)),
    decreases entries.len(),
{
    if entries.len() > 0 {
        let front = entries.drop_last();
        let last = entries.len() - 1;
        lemma_named_ids(front, id);
        assert(entries[last] == entries.last());
        assert forall|i: int| 0 <= i < front.len() implies #[trigger] front[i] == entries[i] by {}
        if let DirEntry::Named(name) = entries.last() {
            if let Some(bytes) = hex_bytes(name@) {
                crate::seq_util::lemma_push_contains(named_ids(front), bytes, id);
            }
        }
        if named_ids(front).contains(id) {
            let i = choose|i: int|
                0 <= i < front.len() && (#[trigger] front[i] matches DirEntry::Named(name)
                    && hex_bytes(name@) == Some(id));
            assert(entries[i] == front[i]);
        }
        if exists|i: int|
            0 <= i < entries.len() && (#[trigger] entries[i] matches DirEntry::Named(name)
                && hex_bytes(name@) == Some(id)) {
            let i = choose|i: int|
                0 <= i < entries.len() && (#[trigger] entries[i] matches DirEntry::Named(name)
                    && hex_bytes(name@) == Some(id));
            if i < last {
                assert(front[i] == entries[i]);
            }
        }
    }
}

/// The first file that cannot be read decides what is said. Nothing is said if
/// all can be read.
pub proof fn lemma_first_failure(entries: Seq<DirEntry>, k: int)
    requires
        0 <= k <= entries.len(),
        forall|i: int| 0 <= i < k ==> (#[trigger] entries[i]) is Named,
        k < entries.len() ==> !(entries[k] is Named),
    ensures
        k == entries.len() ==> first_failure(entries) is None,
        k < entries.len() ==> first_failure(entries) is Some && (match entries[k] {
            DirEntry::NotUtf8(name) => first_failure(entries)->Some_0
                == "Non-utf8 in op head file name: "@ + name@,
            DirEntry::Failed(message) => first_failure(entries)->Some_0 == message@,
            DirEntry::Named(_) => false,
        }),
    decreases entries.len(),
{
    if entries.len() > 0 {
        let front = entries.drop_last();
        let last = entries.len() - 1;
        assert(entries[last] == entries.last());
        let n = if k < front.len() {
            k
        } else {
            front.len() as int
        };
        assert forall|i: int| 0 <= i < n implies (#[trigger] front[i]) is Named by {
            assert(front[i] == entries[i]);
        }
        if n < front.len() {
            assert(front[n] == entries[n]);
        }
        lemma_first_failure(front, n);
    }
}

/// The new head is added before any other is removed, so that there is a head
/// all the time, and it is never removed.
pub proof fn lemma_new_head_first(
    old_ids: Seq<Seq<u8>>,
    new_id: Seq<u8>,
    changes: Seq<HeadChange>,
    i: int,
)
    requires
        is_update(old_ids, new_id, changes),
        0 <= i < changes.len(),
    ensures
        changes[0] matches HeadChange::Add(id) && id.bytes@ == new_id,
        i > 0 ==> (changes[i] matches HeadChange::Remove(id) && old_ids.contains(id.bytes@)
            && id.bytes@ != new_id),
    decreases old_ids.len(),
{
    if old_ids.len() > 0 {
        let fewer = old_ids.drop_last();
        assert(old_ids[old_ids.len() - 1] == old_ids.last());
        if old_ids.last() == new_id {
            lemma_new_head_first(fewer, new_id, changes, i);
        } else {
            let front = changes.drop_last();
            lemma_update_not_empty(fewer, new_id, front);
            lemma_new_head_first(
                fewer,
                new_id,
                front,
                if i < front.len() {
                    i
                } else {
                    0
                },
            );
            assert(front[0] == changes[0]);
            if i < front.len() {
                assert(front[i] == changes[i]);
            }
        }
        if i > 0 {
            if let HeadChange::Remove(id) = changes[i] {
                if fewer.contains(id.bytes@) {
                    let k = choose|k: int| 0 <= k < fewer.len() && fewer[k] == id.bytes@;
                    assert(old_ids[k] == id.bytes@);
                }
            }
        }
    }
}

proof fn lemma_update_not_empty(
    old_ids: Seq<Seq<u8>>,
    new_id: Seq<u8>,
    changes: Seq<HeadChange>,
)
    requires
        is_update(old_ids, new_id, changes),
    ensures
        changes.len() > 0,
    decreases old_ids.len(),
{
    if old_ids.len() > 0 && old_ids.last() == new_id {
        lemma_update_not_empty(old_ids.drop_last(), new_id, changes);
    }
}

} // verus!
