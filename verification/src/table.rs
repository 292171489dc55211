//! The string table: the names of an archive, each at the byte offset at
//! which it starts.

use vstd::prelude::*;
use vstd::string::*;
use crate::bytes::{align32, push_bytes, push_zeros, zeros};
use crate::error::ArchiveError;
use crate::text::{decode_range, lossy_text, str_eq};
use vstd::utf8::encode_utf8;

verus! {

/// How many bytes a text takes in the table, without its terminator.
pub open spec fn text_len(text: Seq<char>) -> int {
    encode_utf8(text).len() as int
}

/// The offsets grow from each entry to the next.
pub open spec fn increasing(es: Seq<(u32, Seq<char>)>) -> bool {
    forall|i: int, j: int| 0 <= i < j < es.len() ==> es[i].0 < es[j].0
}

/// Every entry starts where the one before it ends, the first at zero.
pub open spec fn packed(es: Seq<(u32, Seq<char>)>) -> bool {
    &&& es.len() > 0 ==> es[0].0 == 0
    &&& forall|i: int|
        0 <= i < es.len() - 1 ==> #[trigger] es[i + 1].0 == es[i].0 + text_len(es[i].1) + 1
}

/// Where the next new text will start: behind the last entry and its
/// terminator, or at zero in an empty table.
pub open spec fn next_offset(es: Seq<(u32, Seq<char>)>) -> int {
    if es.len() == 0 {
        0
    } else {
        es.last().0 + text_len(es.last().1) + 1
    }
}

/// The offset of the first entry at or behind position `from` that holds `text`.
pub open spec fn find_from(es: Seq<(u32, Seq<char>)>, text: Seq<char>, from: int) -> Option<u32>
    decreases es.len() - from,
{
    if from < 0 || from >= es.len() {
        None
    } else if es[from].1 == text {
        Some(es[from].0)
    } else {
        find_from(es, text, from + 1)
    }
}

/// The offset of the first entry that holds `text`.
pub open spec fn find(es: Seq<(u32, Seq<char>)>, text: Seq<char>) -> Option<u32> {
    find_from(es, text, 0)
}

/// The text of the first entry at or behind position `from` that starts at `off`.
pub open spec fn lookup_from(es: Seq<(u32, Seq<char>)>, off: u32, from: int) -> Option<Seq<char>>
    decreases es.len() - from,
{
    if from < 0 || from >= es.len() {
        None
    } else if es[from].0 == off {
        Some(es[from].1)
    } else {
        lookup_from(es, off, from + 1)
    }
}

/// The text that starts at `off`.
pub open spec fn lookup(es: Seq<(u32, Seq<char>)>, off: u32) -> Option<Seq<char>> {
    lookup_from(es, off, 0)
}

/// Whether `text` can be added: it is there already, or the offset at which
/// it would start fits 32 bits.
pub open spec fn has_room(es: Seq<(u32, Seq<char>)>, text: Seq<char>) -> bool {
    find(es, text) is Some || next_offset(es) <= u32::MAX
}

/// The offset that adding `text` gives: that of the entry that holds it
/// already, else the next free offset.
pub open spec fn offset_after_add(es: Seq<(u32, Seq<char>)>, text: Seq<char>) -> u32 {
    match find(es, text) {
        Some(off) => off,
        None => next_offset(es) as u32,
    }
}

/// The table after `text` was added: unchanged if an entry holds it already,
/// else with a new last entry.
pub open spec fn after_add(es: Seq<(u32, Seq<char>)>, text: Seq<char>) -> Seq<(u32, Seq<char>)> {
    match find(es, text) {
        Some(off) => es,
        None => es.push((next_offset(es) as u32, text)),
    }
}

/// The texts one after the other, each followed by a zero byte.
pub open spec fn raw_bytes(es: Seq<(u32, Seq<char>)>) -> Seq<u8>
    decreases es.len(),
{
    if es.len() == 0 {
        Seq::<u8>::empty()
    } else {
        raw_bytes(es.drop_last()) + encode_utf8(es.last().1) + seq![0u8]
    }
}

/// The table as it stands in an archive: the texts, then zero bytes up to
/// the next multiple of 32.
pub open spec fn table_bytes(es: Seq<(u32, Seq<char>)>) -> Seq<u8> {
    raw_bytes(es) + zeros(align32(raw_bytes(es).len() as int) - raw_bytes(es).len())
}

/// Whether only zero bytes stand at and behind `start`.
pub open spec fn all_zero_from(data: Seq<u8>, start: int) -> bool {
    forall|i: int| start <= i < data.len() ==> data[i] == 0
}

/// The position of the first zero byte at or behind `start`, or the length
/// of the data if there is none.
pub open spec fn run_end(data: Seq<u8>, start: int) -> int
    decreases data.len() - start,
{
    if start < 0 || start >= data.len() {
        data.len() as int
    } else if data[start] == 0 {
        start
    } else {
        run_end(data, start + 1)
    }
}

/// The entries that a scan of `data` from `start` finds: one for each run
/// of bytes up to a zero byte, at the offset where the run starts, until
/// only zero bytes are left.
pub open spec fn scan_from(data: Seq<u8>, start: int) -> Seq<(u32, Seq<char>)>
    decreases data.len() + 1 - start,
    via scan_from_decreases
{
    if start < 0 || start >= data.len() || all_zero_from(data, start) {
        Seq::empty()
    } else {
        seq![(#[verifier::truncate] (start as u32), lossy_text(data.subrange(start, run_end(data, start))))] + scan_from(
            data,
            run_end(data, start) + 1,
        )
    }
}

#[via_fn]
proof fn scan_from_decreases(data: Seq<u8>, start: int) {
    if 0 <= start < data.len() {
        lemma_run_end(data, start);
    }
}

/// The entries of the table that `data` holds.
pub open spec fn scan(data: Seq<u8>) -> Seq<(u32, Seq<char>)> {
    scan_from(data, 0)
}

/// A run ends at or behind its start, on a zero byte or at the end of the
/// data, and holds no zero byte.
pub proof fn lemma_run_end(data: Seq<u8>, start: int)
    requires
        0 <= start <= data.len(),
    ensures
        start <= run_end(data, start) <= data.len(),
        run_end(data, start) < data.len() ==> data[run_end(data, start)] == 0,
        forall|i: int| start <= i < run_end(data, start) ==> data[i] != 0,
    decreases data.len() - start,
{
    if start < data.len() && data[start] != 0 {
        lemma_run_end(data, start + 1);
    }
}

/// One entry of the table.
#[derive(Debug)]
struct Entry {
    off: u32,
    text: String,
}

/// The string table of an archive. Its entries stand in the order of their
/// offsets, and no two of them start at the same offset.
#[derive(Debug)]
pub struct Table {
    entries: Vec<Entry>,
}

impl View for Table {
    type V = Seq<(u32, Seq<char>)>;

    /// The entries, each an offset and the text that starts there.
    closed spec fn view(&self) -> Seq<(u32, Seq<char>)> {
        entries_view(self.entries@)
    }
}

/// The entries as pairs of an offset and a text.
spec fn entries_view(entries: Seq<Entry>) -> Seq<(u32, Seq<char>)> {
    Seq::new(entries.len(), |i: int| (entries[i].off, entries[i].text@))
}

impl Table {
    #[verifier::type_invariant]
    spec fn ordered(&self) -> bool {
        increasing(self@)
    }

    /// An empty table.
    pub fn new() -> (table: Table)
        ensures
            table@ == Seq::<(u32, Seq<char>)>::empty(),
    {
        let table = Table { entries: Vec::new() };
        assert(table@ =~= Seq::<(u32, Seq<char>)>::empty());
        table
    }

    /// The number of entries.
    pub fn len(&self) -> (n: usize)
        ensures
            n == self@.len(),
            increasing(self@),
    {
        proof {
            use_type_invariant(self);
        }
        self.entries.len()
    }

    /// The offset of the entry at position `i`.
    pub fn offset_at(&self, i: usize) -> (off: u32)
        requires
            i < self@.len(),
        ensures
            off == self@[i as int].0,
    {
        self.entries[i].off
    }

    /// The text of the entry at position `i`.
    pub fn text_at(&self, i: usize) -> (text: &String)
        requires
            i < self@.len(),
        ensures
            text@ == self@[i as int].1,
    {
        &self.entries[i].text
    }

    /// The text that starts at `offset`, or `StringTableLookupFailure` if
    /// none does.
    pub fn lookup(&self, offset: u32) -> (res: Result<String, ArchiveError>)
        ensures
            match res {
                Ok(text) => lookup(self@, offset) == Some(text@),
                Err(e) => e == ArchiveError::StringTableLookupFailure && lookup(self@, offset)
                    is None,
            },
    {
        let mut i: usize = 0;
        while i < self.entries.len()
            invariant
                i <= self.entries.len(),
                lookup(self@, offset) == lookup_from(self@, offset, i as int),
            decreases self.entries.len() - i,
        {
            if self.entries[i].off == offset {
                return Ok(self.entries[i].text.clone());
            }
            i += 1;
        }
        Err(ArchiveError::StringTableLookupFailure)
    }

    /// The offset of the first entry that holds `item`.
    pub fn offset_of(&self, item: &str) -> (res: Option<u32>)
        ensures
            res == find(self@, item@),
    {
        let mut i: usize = 0;
        while i < self.entries.len()
            invariant
                i <= self.entries.len(),
                find(self@, item@) == find_from(self@, item@, i as int),
            decreases self.entries.len() - i,
        {
            if str_eq(self.entries[i].text.as_str(), item) {
                return Some(self.entries[i].off);
            }
            i += 1;
        }
        None
    }

    /// Whether `item` can be added.
    pub fn has_room(&self, item: &str) -> (r: bool)
        ensures
            r == has_room(self@, item@),
    {
        if self.offset_of(item).is_some() {
            return true;
        }
        self.next_free().is_some()
    }

    /// The offset at which a new text would start, if it fits 32 bits.
    pub fn next_free(&self) -> (res: Option<u32>)
        ensures
            match res {
                Some(off) => off == next_offset(self@),
                None => next_offset(self@) > u32::MAX,
            },
    {
        let n = self.entries.len();
        if n == 0 {
            return Some(0);
        }
        assert(self@.last() == (self.entries@[n - 1].off, self.entries@[n - 1].text@));
        let last = &self.entries[n - 1];
        let len: usize = last.text.as_str().as_bytes().len();
        let limit: usize = (u32::MAX - last.off) as usize;
        if len >= limit {
            None
        } else {
            Some(last.off + len as u32 + 1)
        }
    }

    /// Gives `item` an offset: that of the entry that holds it already, else
    /// the next free one, at which it is then entered.
    pub fn add(&mut self, item: &str) -> (off: u32)
        requires
            has_room(old(self)@, item@),
        ensures
            off == offset_after_add(old(self)@, item@),
            final(self)@ == after_add(old(self)@, item@),
            find(final(self)@, item@) == Some(off),
    {
        proof {
            use_type_invariant(&*self);
        }
        match self.offset_of(item) {
            Some(off) => {
                off
            },
            None => {
                let free = self.next_free();
                let off = free.unwrap();
                let ghost before = self@;
                proof {
                    lemma_find_none(before, item@);
                }
                let mut entries: Vec<Entry> = Vec::new();
                core::mem::swap(&mut self.entries, &mut entries);
                entries.push(Entry { off, text: item.to_owned() });
                proof {
                    assert(entries_view(entries@) =~= before.push((off, item@)));
                    lemma_find_pushed(before, item@, off);
                }
                *self = Table { entries };
                off
            },
        }
    }

    /// The length of the table in an archive: that of all texts with their
    /// terminators, rounded up to a multiple of 32. `None` if it does not fit
    /// 32 bits.
    pub fn total_size(&self) -> (res: Option<u32>)
        ensures
            match res {
                Some(n) => n == table_bytes(self@).len(),
                None => table_bytes(self@).len() > u32::MAX,
            },
    {
        let mut total: u64 = 0;
        let mut i: usize = 0;
        while i < self.entries.len()
            invariant
                i <= self.entries.len(),
                total == raw_bytes(self@.take(i as int)).len(),
                total <= u32::MAX,
            decreases self.entries.len() - i,
        {
            let len: usize = self.entries[i].text.as_str().as_bytes().len();
            proof {
                let next = self@.take(i as int + 1);
                assert(next.drop_last() =~= self@.take(i as int));
                assert(next.last() == self@[i as int]);
                assert(self@ =~= self@.take(self@.len() as int));
                lemma_raw_bytes_prefix(self@, i as int + 1);
            }
            if len as u64 >= 0xFFFF_FFFF {
                return None;
            }
            total = total + len as u64 + 1;
            if total > 0xFFFF_FFFF {
                return None;
            }
            i += 1;
        }
        proof {
            assert(self@.take(i as int) =~= self@);
        }
        let padded: u64 = (total + 31) / 32 * 32;
        if padded > 0xFFFF_FFFF {
            None
        } else {
            Some(padded as u32)
        }
    }

    /// Appends the table as it stands in an archive: the texts, each
    /// followed by a zero byte, and then zero bytes until what was appended
    /// is a multiple of 32 long, wherever in `out` it starts.
    pub fn write(&self, out: &mut Vec<u8>)
        ensures
            final(out)@ == old(out)@ + table_bytes(self@),
    {
        let start: usize = out.len();
        let mut i: usize = 0;
        while i < self.entries.len()
            invariant
                i <= self.entries.len(),
                out@ == old(out)@ + raw_bytes(self@.take(i as int)),
            decreases self.entries.len() - i,
        {
            let ghost before = out@;
            push_bytes(out, self.entries[i].text.as_str().as_bytes());
            out.push(0u8);
            proof {
                let next = self@.take(i as int + 1);
                assert(next.drop_last() =~= self@.take(i as int));
                assert(next.last() == self@[i as int]);
                assert(out@ =~= old(out)@ + raw_bytes(next));
            }
            i += 1;
        }
        proof {
            assert(self@.take(i as int) =~= self@);
        }
        let rest: usize = (out.len() - start) % 32;
        if rest != 0 {
            push_zeros(out, 32 - rest);
        }
        assert(out@ =~= old(out)@ + table_bytes(self@));
    }

    /// The table as it stands in an archive.
    pub fn serialize(&self) -> (out: Vec<u8>)
        ensures
            out@ == table_bytes(self@),
    {
        let mut out: Vec<u8> = Vec::new();
        self.write(&mut out);
        out
    }

    /// The table that `data` holds: one entry for each run of bytes up to a
    /// zero byte, until only zero bytes are left.
    pub fn from_data(data: &[u8]) -> (table: Table)
        requires
            data@.len() <= u32::MAX,
        ensures
            table@ == scan(data@),
    {
        let mut content_end: usize = data.len();
        while content_end > 0 && data[content_end - 1] == 0
            invariant
                content_end <= data.len(),
                all_zero_from(data@, content_end as int),
            decreases content_end,
        {
            content_end -= 1;
        }
        let mut entries: Vec<Entry> = Vec::new();
        let mut start: usize = 0;
        while start < content_end
            invariant
                start <= data.len(),
                content_end <= data.len(),
                data@.len() <= u32::MAX,
                all_zero_from(data@, content_end as int),
                content_end > 0 ==> data@[content_end as int - 1] != 0,
                scan(data@) == entries_view(entries@) + scan_from(data@, start as int),
                forall|k: int| 0 <= k < entries@.len() ==> entries@[k].off < start,
                increasing(entries_view(entries@)),
            decreases data.len() - start,
        {
            let mut end: usize = start;
            while end < data.len() && data[end] != 0
                invariant
                    start <= end <= data.len(),
                    run_end(data@, start as int) == run_end(data@, end as int),
                decreases data.len() - end,
            {
                end += 1;
            }
            let text = decode_range(data, start, end);
            proof {
                assert(!all_zero_from(data@, start as int));
                lemma_run_end(data@, end as int);
            }
            let ghost before = entries_view(entries@);
            entries.push(Entry { off: start as u32, text });
            proof {
                assert(entries_view(entries@) =~= before.push(
                    (start as u32, lossy_text(data@.subrange(start as int, end as int))),
                ));
                assert(scan(data@) =~= entries_view(entries@) + scan_from(data@, end as int + 1));
            }
            proof {
                if end == data.len() {
                    assert(scan_from(data@, end as int + 1) =~= scan_from(data@, end as int));
                }
            }
            start = if end < data.len() {
                end + 1
            } else {
                end
            };
        }
        proof {
            if start < data.len() {
                assert(all_zero_from(data@, start as int));
            }
            assert(scan_from(data@, start as int) =~= Seq::<(u32, Seq<char>)>::empty());
            assert(scan(data@) =~= entries_view(entries@));
        }
        Table { entries }
    }
}

impl Default for Table {
    /// An empty table.
    fn default() -> (table: Table)
        ensures
            table@ == Seq::<(u32, Seq<char>)>::empty(),
    {
        Table::new()
    }
}

/// No entry holds a text that `find` does not find.
pub proof fn lemma_find_none(es: Seq<(u32, Seq<char>)>, text: Seq<char>)
    requires
        find(es, text) is None,
    ensures
        forall|i: int| 0 <= i < es.len() ==> es[i].1 != text,
{
    lemma_find_from_none(es, text, 0);
}

proof fn lemma_find_from_none(es: Seq<(u32, Seq<char>)>, text: Seq<char>, from: int)
    requires
        0 <= from,
        find_from(es, text, from) is None,
    ensures
        forall|i: int| from <= i < es.len() ==> es[i].1 != text,
    decreases es.len() - from,
{
    if from < es.len() {
        lemma_find_from_none(es, text, from + 1);
    }
}

/// What `find` finds is the offset of the first entry that holds the text.
pub proof fn lemma_find_some(es: Seq<(u32, Seq<char>)>, text: Seq<char>)
    requires
        find(es, text) is Some,
    ensures
        exists|i: int|
            0 <= i < es.len() && #[trigger] es[i].1 == text && es[i].0 == find(es, text).unwrap()
                && forall|j: int| 0 <= j < i ==> es[j].1 != text,
{
    lemma_find_from_some(es, text, 0);
}

proof fn lemma_find_from_some(es: Seq<(u32, Seq<char>)>, text: Seq<char>, from: int)
    requires
        0 <= from,
        find_from(es, text, from) is Some,
    ensures
        exists|i: int|
            from <= i < es.len() && #[trigger] es[i].1 == text && es[i].0 == find_from(
                es,
                text,
                from,
            ).unwrap() && forall|j: int| from <= j < i ==> es[j].1 != text,
    decreases es.len() - from,
{
    if es[from].1 == text {
    } else {
        lemma_find_from_some(es, text, from + 1);
        let i = choose|i: int|
            from + 1 <= i < es.len() && #[trigger] es[i].1 == text && es[i].0 == find_from(
                es,
                text,
                from + 1,
            ).unwrap() && forall|j: int| from + 1 <= j < i ==> es[j].1 != text;
        assert(from <= i < es.len() && es[i].1 == text);
    }
}

/// A text that was entered last, into a table that did not hold it, is found
/// at its offset.
pub proof fn lemma_find_pushed(es: Seq<(u32, Seq<char>)>, text: Seq<char>, off: u32)
    requires
        find(es, text) is None,
    ensures
        find(es.push((off, text)), text) == Some(off),
{
    lemma_find_none(es, text);
    lemma_find_pushed_from(es, text, off, 0);
}

proof fn lemma_find_pushed_from(es: Seq<(u32, Seq<char>)>, text: Seq<char>, off: u32, from: int)
    requires
        0 <= from <= es.len(),
        forall|i: int| 0 <= i < es.len() ==> es[i].1 != text,
    ensures
        find_from(es.push((off, text)), text, from) == Some(off),
    decreases es.len() - from,
{
    if from < es.len() {
        lemma_find_pushed_from(es, text, off, from + 1);
    }
}

/// Adding a text a second time gives the offset of the first time, and
/// leaves the table as it is.
pub proof fn lemma_add_twice(es: Seq<(u32, Seq<char>)>, text: Seq<char>)
    ensures
        offset_after_add(after_add(es, text), text) == offset_after_add(es, text),
        after_add(after_add(es, text), text) == after_add(es, text),
{
    if find(es, text) is None {
        lemma_find_pushed(es, text, next_offset(es) as u32);
    }
}

/// Two different texts that are added one after the other get different
/// offsets, in a table whose offsets grow and that has room for both.
pub proof fn lemma_add_distinct(es: Seq<(u32, Seq<char>)>, first: Seq<char>, second: Seq<char>)
    requires
        increasing(es),
        first != second,
        has_room(es, first),
        has_room(after_add(es, first), second),
    ensures
        offset_after_add(es, first) != offset_after_add(after_add(es, first), second),
        increasing(after_add(es, first)),
{
    lemma_after_add_increasing(es, first);
    let mid = after_add(es, first);
    lemma_add_twice(es, first);
    assert(find(mid, first) == Some(offset_after_add(es, first))) by {
        if find(es, first) is None {
            lemma_find_pushed(es, first, next_offset(es) as u32);
        }
    }
    lemma_find_some(mid, first);
    let i = choose|i: int|
        0 <= i < mid.len() && #[trigger] mid[i].1 == first && mid[i].0 == find(mid, first).unwrap()
            && forall|j: int| 0 <= j < i ==> mid[j].1 != first;
    if find(mid, second) is Some {
        lemma_find_some(mid, second);
        let k = choose|k: int|
            0 <= k < mid.len() && #[trigger] mid[k].1 == second && mid[k].0 == find(mid, second).unwrap()
                && forall|j: int| 0 <= j < k ==> mid[j].1 != second;
        assert(i != k);
        if i < k {
            assert(mid[i].0 < mid[k].0);
        } else {
            assert(mid[k].0 < mid[i].0);
        }
    } else {
        assert(mid[i].0 <= mid.last().0) by {
            if i < mid.len() - 1 {
                assert(mid[i].0 < mid[mid.len() - 1].0);
            }
        }
    }
}

/// The offsets of a table still grow after a text was added to it.
pub proof fn lemma_after_add_increasing(es: Seq<(u32, Seq<char>)>, text: Seq<char>)
    requires
        increasing(es),
        has_room(es, text),
    ensures
        increasing(after_add(es, text)),
{
    if find(es, text) is None {
        let grown = es.push((next_offset(es) as u32, text));
        assert forall|i: int, j: int| 0 <= i < j < grown.len() implies grown[i].0 < grown[j].0 by {
            if j == es.len() && es.len() > 0 {
                if i < es.len() - 1 {
                    assert(es[i].0 < es[es.len() - 1].0);
                }
            }
        }
    }
}

/// A text that the table holds keeps its offset when another text is added.
pub proof fn lemma_find_stable(es: Seq<(u32, Seq<char>)>, added: Seq<char>, text: Seq<char>)
    requires
        find(es, text) is Some,
    ensures
        find(after_add(es, added), text) == find(es, text),
{
    if find(es, added) is None {
        lemma_find_from_stable(es, (next_offset(es) as u32, added), text, 0);
    }
}

proof fn lemma_find_from_stable(es: Seq<(u32, Seq<char>)>, entry: (u32, Seq<char>), text: Seq<char>, from: int)
    requires
        0 <= from,
        find_from(es, text, from) is Some,
    ensures
        find_from(es.push(entry), text, from) == find_from(es, text, from),
    decreases es.len() - from,
{
    if from < es.len() && es[from].1 != text {
        lemma_find_from_stable(es, entry, text, from + 1);
    }
}

/// The bytes of a prefix of the entries are a prefix of the bytes of all.
pub proof fn lemma_raw_bytes_prefix(es: Seq<(u32, Seq<char>)>, n: int)
    requires
        0 <= n <= es.len(),
    ensures
        raw_bytes(es.take(n)).len() <= raw_bytes(es).len(),
        raw_bytes(es).take(raw_bytes(es.take(n)).len() as int) == raw_bytes(es.take(n)),
    decreases es.len() - n,
{
    if n == es.len() {
        assert(es.take(n) =~= es);
        assert(raw_bytes(es).take(raw_bytes(es).len() as int) =~= raw_bytes(es));
    } else {
        lemma_raw_bytes_prefix(es, n + 1);
        let next = es.take(n + 1);
        assert(next.drop_last() =~= es.take(n));
        assert(raw_bytes(es).take(raw_bytes(es.take(n)).len() as int) =~= raw_bytes(es.take(n)));
    }
}

} // verus!
