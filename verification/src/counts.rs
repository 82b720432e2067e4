//! Read counts per feature identifier.

use csv::StringRecord;
use vstd::hash_map::StringHashMap;
use vstd::prelude::*;
use vstd::string::StrSliceExecFns;
use vstd::utf8::is_ascii_chars;

verus! {

/// The counts of `m`, added up.
pub open spec fn sum_of(m: Map<Seq<char>, u64>) -> nat
    decreases m.dom().len(),
    when m.dom().finite()
{
    if m.dom().len() == 0 {
        0
    } else {
        let k = m.dom().choose();
        (m[k] + sum_of(m.remove(k))) as nat
    }
}

/// Any one identifier can be taken out of the sum first.
pub proof fn lemma_sum_of_remove(m: Map<Seq<char>, u64>, k: Seq<char>)
    requires
        m.dom().finite(),
        m.contains_key(k),
    ensures
        sum_of(m) == m[k] + sum_of(m.remove(k)),
    decreases m.dom().len(),
{
    let c = m.dom().choose();
    if c != k {
        lemma_sum_of_remove(m.remove(c), k);
        lemma_sum_of_remove(m.remove(k), c);
        assert(m.remove(c).remove(k) =~= m.remove(k).remove(c));
    }
}

/// An empty table sums to nothing.
pub proof fn lemma_sum_of_empty()
    ensures
        sum_of(Map::<Seq<char>, u64>::empty()) == 0,
{
}

/// A new identifier adds its count to the sum.
pub proof fn lemma_sum_of_insert(m: Map<Seq<char>, u64>, k: Seq<char>, count: u64)
    requires
        m.dom().finite(),
        !m.contains_key(k),
    ensures
        sum_of(m.insert(k, count)) == sum_of(m) + count,
{
    lemma_sum_of_remove(m.insert(k, count), k);
    assert(m.insert(k, count).remove(k) =~= m);
}

/// The counts that `m` holds for the identifiers of `ids`, added up.
pub open spec fn listed_sum(ids: Seq<Seq<char>>, m: Map<Seq<char>, u64>) -> nat
    decreases ids.len(),
{
    if ids.len() == 0 {
        0
    } else {
        (listed_sum(ids.drop_last(), m) + m[ids.last()]) as nat
    }
}

/// `ids` names each identifier of `m` once.
pub open spec fn lists_keys(ids: Seq<Seq<char>>, m: Map<Seq<char>, u64>) -> bool {
    &&& forall|i: int, j: int| 0 <= i < j < ids.len() ==> ids[i] != ids[j]
    &&& forall|i: int| 0 <= i < ids.len() ==> m.contains_key(#[trigger] ids[i])
    &&& forall|k: Seq<char>| m.contains_key(k) ==> exists|i: int| 0 <= i < ids.len() && ids[i] == k
}

/// A listed sum looks only at the listed identifiers.
proof fn lemma_listed_sum_ignores(ids: Seq<Seq<char>>, m: Map<Seq<char>, u64>, k: Seq<char>)
    requires
        forall|i: int| 0 <= i < ids.len() ==> ids[i] != k,
    ensures
        listed_sum(ids, m.remove(k)) == listed_sum(ids, m),
    decreases ids.len(),
{
    if ids.len() > 0 {
        assert(ids.last() == ids[ids.len() - 1]);
        assert forall|i: int| 0 <= i < ids.drop_last().len() implies ids.drop_last()[i] != k by {
            assert(ids.drop_last()[i] == ids[i]);
        }
        lemma_listed_sum_ignores(ids.drop_last(), m, k);
    }
}

/// Adding up along a list of all identifiers gives the sum of the table.
pub proof fn lemma_listed_sum_is_sum(ids: Seq<Seq<char>>, m: Map<Seq<char>, u64>)
    requires
        lists_keys(ids, m),
    ensures
        m.dom().finite(),
        m.dom().len() == ids.len(),
        listed_sum(ids, m) == sum_of(m),
    decreases ids.len(),
{
    if ids.len() == 0 {
        assert(m.dom() =~= Set::<Seq<char>>::empty());
    } else {
        let k = ids.last();
        let front = ids.drop_last();
        let rest = m.remove(k);
        assert(ids[ids.len() - 1] == k);
        assert(lists_keys(front, rest)) by {
            assert forall|i: int| 0 <= i < front.len() implies rest.contains_key(
                #[trigger] front[i],
            ) by {
                assert(front[i] == ids[i]);
                assert(m.contains_key(ids[i]));
            }
            assert forall|c: Seq<char>| rest.contains_key(c) implies exists|i: int|
                0 <= i < front.len() && front[i] == c by {
                let i = choose|i: int| 0 <= i < ids.len() && ids[i] == c;
                assert(front[i] == c);
            }
        }
        lemma_listed_sum_is_sum(front, rest);
        assert(m.dom() =~= rest.dom().insert(k));
        assert forall|i: int| 0 <= i < front.len() implies front[i] != k by {
            assert(front[i] == ids[i]);
        }
        lemma_listed_sum_ignores(front, m, k);
        lemma_sum_of_remove(m, k);
    }
}

/// A front part of the list sums to no more than the whole list.
proof fn lemma_listed_sum_of_front(ids: Seq<Seq<char>>, m: Map<Seq<char>, u64>, n: int)
    requires
        0 <= n <= ids.len(),
    ensures
        listed_sum(ids.take(n), m) <= listed_sum(ids, m),
    decreases ids.len() - n,
{
    if n < ids.len() {
        lemma_listed_sum_of_front(ids, m, n + 1);
        assert(ids.take(n + 1).drop_last() =~= ids.take(n));
    } else {
        assert(ids.take(n) =~= ids);
    }
}

/// A table of read counts, one per feature identifier.
pub struct Counts {
    names: Vec<String>,
    values: StringHashMap<u64>,
}

impl View for Counts {
    type V = Map<Seq<char>, u64>;

    closed spec fn view(&self) -> Map<Seq<char>, u64> {
        self.values@
    }
}

impl Counts {
    /// The identifiers in the order in which they were added.
    pub closed spec fn ids(&self) -> Seq<Seq<char>> {
        Seq::new(self.names@.len(), |i: int| self.names@[i]@)
    }

    /// The list of identifiers and the table of counts hold the same
    /// identifiers, each once.
    pub closed spec fn wf(&self) -> bool {
        lists_keys(self.ids(), self.values@)
    }

    /// What `wf` says, for use outside this file.
    pub proof fn lemma_wf(&self)
        requires
            self.wf(),
        ensures
            lists_keys(self.ids(), self@),
            self@.dom().finite(),
            self@.dom().len() == self.ids().len(),
    {
        lemma_listed_sum_is_sum(self.ids(), self@);
    }

    /// An empty table.
    pub fn new() -> (counts: Counts)
        ensures
            counts.wf(),
            counts@ == Map::<Seq<char>, u64>::empty(),
            counts.ids() == Seq::<Seq<char>>::empty(),
    {
        let counts = Counts { names: Vec::new(), values: StringHashMap::new() };
        assert(counts.ids() =~= Seq::<Seq<char>>::empty());
        counts
    }

    /// The number of identifiers.
    pub fn len(&self) -> (n: usize)
        ensures
            n == self.ids().len(),
    {
        self.names.len()
    }

    /// The identifier that was added at place `i`.
    pub fn id(&self, i: usize) -> (id: &str)
        requires
            i < self.ids().len(),
        ensures
            id@ == self.ids()[i as int],
    {
        self.names[i].as_str()
    }

    /// The count of `id`, if the table has one.
    pub fn get(&self, id: &str) -> (count: Option<u64>)
        ensures
            count == if self@.contains_key(id@) {
                Some(self@[id@])
            } else {
                None
            },
    {
        match self.values.get(id) {
            Some(count) => Some(*count),
            None => None,
        }
    }
}

/// Why a row of counts was turned down.
#[derive(Debug)]
pub enum CountsError {
    /// The row has no identifier.
    InvalidName,
    /// The row has no count, or one that is no number.
    InvalidCount,
    /// The identifier has a count already.
    DuplicateIdentifier(String),
}

/// Adds the count of a new identifier; an identifier that has a count
/// already is turned down and the table stays as it was.
pub fn insert_count(
    counts: &mut Counts,
    name: &str,
    count: u64,
) -> (result: Result<(), CountsError>)
    requires
        old(counts).wf(),
    ensures
        final(counts).wf(),
        match result {
            Ok(()) => {
                &&& !old(counts)@.contains_key(name@)
                &&& final(counts)@ == old(counts)@.insert(name@, count)
                &&& final(counts).ids() == old(counts).ids().push(name@)
            },
            Err(CountsError::DuplicateIdentifier(id)) => {
                &&& old(counts)@.contains_key(name@)
                &&& id@ == name@
                &&& final(counts)@ == old(counts)@
                &&& final(counts).ids() == old(counts).ids()
            },
            Err(_) => false,
        },
{
    if counts.values.contains_key(name) {
        Err(CountsError::DuplicateIdentifier(name.to_owned()))
    } else {
        let ghost before = *counts;
        counts.names.push(name.to_owned());
        counts.values.insert(name.to_owned(), count);
        proof {
            assert(counts.ids() =~= before.ids().push(name@));
            assert forall|i: int, j: int| 0 <= i < j < counts.ids().len() implies counts.ids()[i]
                != counts.ids()[j] by {
                if j < before.ids().len() {
                    assert(before.ids()[i] != before.ids()[j]);
                } else {
                    assert(before.values@.contains_key(before.ids()[i]));
                }
            }
            assert forall|k: Seq<char>| counts.values@.contains_key(k) implies exists|i: int|
                0 <= i < counts.ids().len() && counts.ids()[i] == k by {
                if k == name@ {
                    assert(counts.ids()[before.ids().len() as int] == k);
                } else {
                    let i = choose|i: int| 0 <= i < before.ids().len() && before.ids()[i] == k;
                    assert(counts.ids()[i] == k);
                }
            }
            assert forall|i: int| 0 <= i < counts.ids().len() implies counts.values@.contains_key(
                #[trigger] counts.ids()[i],
            ) by {
                if i < before.ids().len() {
                    assert(before.values@.contains_key(before.ids()[i]));
                }
            }
        }
        Ok(())
    }
}

/// The counts of the table added up, unless the sum is too large for a
/// `u64`.
pub fn checked_sum_counts(counts: &Counts) -> (sum: Option<u64>)
    requires
        counts.wf(),
    ensures
        sum == if sum_of(counts@) <= u64::MAX {
            Some(sum_of(counts@) as u64)
        } else {
            None
        },
{
    proof {
        lemma_listed_sum_is_sum(counts.ids(), counts@);
    }
    let mut sum: u64 = 0;
    let mut i: usize = 0;
    while i < counts.names.len()
        invariant
            0 <= i <= counts.ids().len(),
            counts.ids().len() == counts.names@.len(),
            counts.wf(),
            listed_sum(counts.ids(), counts@) == sum_of(counts@),
            sum == listed_sum(counts.ids().take(i as int), counts@),
        decreases counts.ids().len() - i,
    {
        proof {
            lemma_listed_sum_of_front(counts.ids(), counts@, i + 1);
            assert(counts.ids().take(i + 1).drop_last() =~= counts.ids().take(i as int));
            assert(counts.values@.contains_key(counts.ids()[i as int]));
        }
        let count = match counts.values.get(counts.names[i].as_str()) {
            Some(count) => *count,
            None => 0,
        };
        match sum.checked_add(count) {
            Some(next) => {
                sum = next;
            },
            None => {
                return None;
            },
        }
        i += 1;
    }
    proof {
        assert(counts.ids().take(i as int) =~= counts.ids());
    }
    Some(sum)
}

/// `csv::StringRecord`, one record of delimited text: a value that is
/// handed on unread, but for its fields.
#[verifier::external_type_specification]
#[verifier::external_body]
pub struct ExStringRecord(csv::StringRecord);

/// The fields of a record of delimited text, in their order.
pub uninterp spec fn record_fields(record: StringRecord) -> Seq<Seq<char>>;

/// `csv::StringRecord::get`: the field at place `i`, or nothing where the
/// record has no more than `i` fields.
#[verifier::external_body]
fn field(record: &StringRecord, i: usize) -> (cell: Option<&str>)
    ensures
        match cell {
            Some(text) => {
                &&& i < record_fields(*record).len()
                &&& text@ == record_fields(*record)[i as int]
            },
            None => i >= record_fields(*record).len(),
        },
{
    record.get(i)
}

/// `c` is one of the ten decimal digits.
pub open spec fn is_digit(c: char) -> bool {
    '0' <= c && c <= '9'
}

/// The number that a string of decimal digits writes.
pub open spec fn digits_value(digits: Seq<char>) -> nat
    decreases digits.len(),
{
    if digits.len() == 0 {
        0
    } else {
        (digits_value(digits.drop_last()) * 10 + (digits.last() as u32 - '0' as u32)) as nat
    }
}

/// The part of `text` that is to hold the digits: all of it, or what
/// follows one leading `+`.
pub open spec fn digits_of(text: Seq<char>) -> Seq<char> {
    if text.len() > 0 && text[0] == '+' {
        text.drop_first()
    } else {
        text
    }
}

/// `digits` holds decimal digits and nothing else.
pub open spec fn all_digits(digits: Seq<char>) -> bool {
    forall|i: int| 0 <= i < digits.len() ==> is_digit(#[trigger] digits[i])
}

/// The number that `text` writes in decimal: digits alone, or digits after
/// one `+`. Anything else writes no number.
pub open spec fn decimal(text: Seq<char>) -> Option<nat> {
    if digits_of(text).len() > 0 && all_digits(digits_of(text)) {
        Some(digits_value(digits_of(text)))
    } else {
        None
    }
}

/// The count that `text` writes, if it writes a number that a `u64` holds.
pub open spec fn count_of(text: Seq<char>) -> Option<u64> {
    match decimal(text) {
        Some(value) => if value <= u64::MAX {
            Some(value as u64)
        } else {
            None
        },
        None => None,
    }
}

/// A longer string of digits writes no smaller a number than its front
/// part.
proof fn lemma_digits_value_of_front(digits: Seq<char>, n: int)
    requires
        0 <= n <= digits.len(),
        all_digits(digits),
    ensures
        digits_value(digits.take(n)) <= digits_value(digits),
    decreases digits.len() - n,
{
    if n < digits.len() {
        lemma_digits_value_of_front(digits, n + 1);
        assert(digits.take(n + 1).drop_last() =~= digits.take(n));
        assert(is_digit(digits[n]));
        assert(digits.take(n + 1).last() == digits[n]);
    } else {
        assert(digits.take(n) =~= digits);
    }
}

/// Text with a character beyond ASCII writes no number.
proof fn lemma_decimal_is_ascii(text: Seq<char>, i: int)
    requires
        0 <= i < text.len(),
        !('\0' <= text[i] <= '\u{7f}'),
    ensures
        decimal(text).is_none(),
{
    let digits = digits_of(text);
    if digits.len() < text.len() {
        assert(digits[i - 1] == text[i]);
        assert(!is_digit(digits[i - 1]));
    } else {
        assert(!is_digit(digits[i]));
    }
}

/// Reads a count written in decimal: digits alone, or digits after one `+`.
/// Text that writes no number, or one too large for a `u64`, gives nothing.
pub fn parse_decimal(text: &str) -> (value: Option<u64>)
    ensures
        value == count_of(text@),
{
    if !text.is_ascii() {
        proof {
            let i = choose|i: int|
                0 <= i < text@.len() && !('\0' <= #[trigger] text@[i] <= '\u{7f}');
            lemma_decimal_is_ascii(text@, i);
        }
        return None;
    }
    let bytes = text.as_bytes();
    proof {
        vstd::string::is_ascii_spec_bytes(text);
    }
    let n = bytes.len();
    let start: usize = if n > 0 && bytes[0] == 43u8 {
        1
    } else {
        0
    };
    let ghost digits = digits_of(text@);
    assert(digits =~= text@.subrange(start as int, n as int));
    if start == n {
        return None;
    }
    let mut value: u64 = 0;
    let mut i: usize = start;
    while i < n
        invariant
            start <= i <= n,
            n == bytes@.len(),
            n == text@.len(),
            digits == digits_of(text@),
            digits == text@.subrange(start as int, n as int),
            forall|k: int| 0 <= k < n ==> bytes@[k] == (#[trigger] text@[k]) as u8,
            is_ascii_chars(text@),
            all_digits(digits.take(i - start)),
            value == digits_value(digits.take(i - start)),
        decreases n - i,
    {
        let byte = bytes[i];
        assert(digits[i - start] == text@[i as int]);
        assert('\0' <= text@[i as int] <= '\u{7f}');
        if byte < 48u8 || byte > 57u8 {
            assert(!is_digit(digits[i - start]));
            return None;
        }
        let digit: u64 = (byte - 48u8) as u64;
        proof {
            let front = digits.take(i + 1 - start);
            assert(front.drop_last() =~= digits.take(i - start));
            assert(front.last() == digits[i - start]);
            assert(is_digit(front.last()));
            assert(digits_value(front) == value * 10 + digit);
            assert(all_digits(front)) by {
                assert forall|k: int| 0 <= k < front.len() implies is_digit(
                    #[trigger] front[k],
                ) by {
                    if k < i - start {
                        assert(digits.take(i - start)[k] == front[k]);
                    }
                }
            }
            if all_digits(digits) {
                lemma_digits_value_of_front(digits, i + 1 - start);
            }
        }
        let tens = match value.checked_mul(10) {
            Some(tens) => tens,
            None => {
                return None;
            },
        };
        value = match tens.checked_add(digit) {
            Some(sum) => sum,
            None => {
                return None;
            },
        };
        i += 1;
    }
    proof {
        assert(digits.take(i - start) =~= digits);
    }
    Some(value)
}

/// The identifier of a row: its first field.
pub fn parse_name(record: &StringRecord) -> (result: Result<&str, CountsError>)
    ensures
        match result {
            Ok(name) => record_fields(*record).len() > 0 && name@ == record_fields(*record)[0],
            Err(CountsError::InvalidName) => record_fields(*record).len() == 0,
            Err(_) => false,
        },
{
    match field(record, 0) {
        Some(name) => Ok(name),
        None => Err(CountsError::InvalidName),
    }
}

/// The count that a row may hold: what its second field writes.
pub open spec fn row_count(fields: Seq<Seq<char>>) -> Option<u64> {
    if fields.len() > 1 {
        count_of(fields[1])
    } else {
        None
    }
}

/// The count of a row: its second field, read as a decimal number.
pub fn parse_count(record: &StringRecord) -> (result: Result<u64, CountsError>)
    ensures
        match result {
            Ok(count) => row_count(record_fields(*record)) == Some(count),
            Err(CountsError::InvalidCount) => row_count(record_fields(*record)).is_none(),
            Err(_) => false,
        },
{
    match field(record, 1) {
        Some(cell) => match parse_decimal(cell) {
            Some(count) => Ok(count),
            None => Err(CountsError::InvalidCount),
        },
        None => Err(CountsError::InvalidCount),
    }
}

/// The identifier marks a summary row: it begins with two underscores.
pub open spec fn is_summary(name: Seq<char>) -> bool {
    name.len() >= 2 && name[0] == '_' && name[1] == '_'
}

/// Tells whether `name` marks a summary row.
pub fn is_summary_name(name: &str) -> (summary: bool)
    ensures
        summary == is_summary(name@),
{
    name.unicode_len() >= 2 && name.get_char(0) == '_' && name.get_char(1) == '_'
}

/// Takes one row of the counts table into `counts`.
///
/// Returns `true` after storing the row's count, and `false`, with nothing
/// stored, at a summary row, where the reading of a table ends. A row with
/// no identifier, with no readable count or with an identifier that has a
/// count already is turned down and nothing is stored.
pub fn read_record(
    counts: &mut Counts,
    record: &StringRecord,
) -> (result: Result<bool, CountsError>)
    requires
        old(counts).wf(),
    ensures
        final(counts).wf(),
        ({
            let fields = record_fields(*record);
            let before = old(counts)@;
            if fields.len() == 0 {
                &&& result matches Err(CountsError::InvalidName)
                &&& final(counts)@ == before
                &&& final(counts).ids() == old(counts).ids()
            } else if is_summary(fields[0]) {
                &&& result matches Ok(false)
                &&& final(counts)@ == before
                &&& final(counts).ids() == old(counts).ids()
            } else if row_count(fields).is_none() {
                &&& result matches Err(CountsError::InvalidCount)
                &&& final(counts)@ == before
                &&& final(counts).ids() == old(counts).ids()
            } else if before.contains_key(fields[0]) {
                &&& result matches Err(CountsError::DuplicateIdentifier(id))
                &&& id@ == fields[0]
                &&& final(counts)@ == before
                &&& final(counts).ids() == old(counts).ids()
            } else {
                &&& result matches Ok(true)
                &&& final(counts)@ == before.insert(fields[0], row_count(fields).unwrap())
                &&& final(counts).ids() == old(counts).ids().push(fields[0])
            }
        }),
{
    let name = match parse_name(record) {
        Ok(name) => name,
        Err(e) => {
            return Err(e);
        },
    };
    if is_summary_name(name) {
        return Ok(false);
    }
    let count = match parse_count(record) {
        Ok(count) => count,
        Err(e) => {
            return Err(e);
        },
    };
    match insert_count(counts, name, count) {
        Ok(()) => Ok(true),
        Err(e) => Err(e),
    }
}

/// Sums the counts of the table.
pub fn sum_counts(counts: &Counts) -> (sum: u64)
    requires
        counts.wf(),
        sum_of(counts@) <= u64::MAX,
    ensures
        sum == sum_of(counts@),
{
    match checked_sum_counts(counts) {
        Some(sum) => sum,
        None => 0,
    }
}

} // verus!
