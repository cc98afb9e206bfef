//! Heap profiles in the pprof protobuf format, compressed with gzip.

use std::collections::HashMap;
use std::io::Write;

use vstd::prelude::*;
use vstd::string::*;

use crate::pprof::PprofControl;
use crate::pprof::PprofState;
use crate::pprof::ProfView;
use crate::pprof::ReentrancyGuard;
use crate::pprof::StackCounters;
use crate::wire::encode_bytes_field;
use crate::wire::encode_field;
use crate::wire::encode_label;
use crate::wire::encode_value_type;
use crate::wire::encode_varint_field;
use crate::wire::lemma_message_concat;
use crate::wire::lemma_message_push;
use crate::wire::message;
use crate::wire::pair;
use crate::wire::Field;

verus! {

broadcast use vstd::std_specs::hash::group_hash_axioms;

/// The table with `s` in it.
pub open spec fn with_string(table: Seq<Seq<u8>>, s: Seq<u8>) -> Seq<Seq<u8>> {
    if table.contains(s) {
        table
    } else {
        table.push(s)
    }
}

/// The table with all of `list` in it, added from the first on.
pub open spec fn with_strings(table: Seq<Seq<u8>>, list: Seq<Seq<u8>>) -> Seq<Seq<u8>>
    decreases list.len(),
{
    if list.len() == 0 {
        table
    } else {
        with_string(with_strings(table, list.drop_last()), list.last())
    }
}

/// `longer` begins with `table`.
pub open spec fn extends(table: Seq<Seq<u8>>, longer: Seq<Seq<u8>>) -> bool {
    &&& table.len() <= longer.len()
    &&& forall|i: int| 0 <= i < table.len() ==> #[trigger] longer[i] == table[i]
}

/// Deduplicated strings, by index.
pub struct StringTable {
    pub table: Vec<Vec<u8>>,
}

/// Two strings are the same.
fn same_bytes(a: &[u8], b: &[u8]) -> (r: bool)
    ensures
        r == (a@ == b@),
{
    if a.len() != b.len() {
        return false;
    }
    let mut i: usize = 0;
    while i < a.len()
        invariant
            i <= a.len(),
            a.len() == b.len(),
            forall|j: int| 0 <= j < i ==> a@[j] == b@[j],
        decreases a.len() - i,
    {
        if a[i] != b[i] {
            assert(a@[i as int] != b@[i as int]);
            return false;
        }
        i = i + 1;
    }
    assert(a@ =~= b@);
    true
}

impl StringTable {
    /// The strings as bytes.
    pub open spec fn view(&self) -> Seq<Seq<u8>> {
        Seq::new(self.table@.len(), |i: int| self.table@[i]@)
    }

    /// No string occurs twice.
    pub open spec fn wf(&self) -> bool {
        self@.no_duplicates()
    }

    /// A table without strings.
    pub fn new() -> (r: StringTable)
        ensures
            r.wf(),
            r@ == Seq::<Seq<u8>>::empty(),
    {
        let r = StringTable { table: Vec::new() };
        assert(r@ =~= Seq::empty());
        r
    }

    /// The index of a string, which gets one if it has none yet.
    pub fn intern(&mut self, s: &[u8]) -> (r: usize)
        requires
            old(self).wf(),
        ensures
            final(self).wf(),
            final(self)@ == with_string(old(self)@, s@),
            r < final(self)@.len(),
            final(self)@[r as int] == s@,
            extends(old(self)@, final(self)@),
    {
        let mut i: usize = 0;
        while i < self.table.len()
            invariant
                i <= self.table.len(),
                self.wf(),
                *self == *old(self),
                forall|j: int| 0 <= j < i ==> #[trigger] self@[j] != s@,
            decreases self.table.len() - i,
        {
            if same_bytes(self.table[i].as_slice(), s) {
                proof {
                    assert(self@[i as int] == s@);
                    assert(self@.contains(s@));
                }
                return i;
            }
            i = i + 1;
        }
        let ghost was = self@;
        assert(!was.contains(s@));
        let copy = vstd::slice::slice_to_vec(s);
        self.table.push(copy);
        proof {
            assert(self@ =~= was.push(s@));
        }
        i
    }
}

/// A digit in bases up to sixteen.
pub open spec fn digit(n: int) -> u8 {
    if n < 10 {
        (48 + n) as u8
    } else {
        (87 + n) as u8
    }
}

/// A number written in the given base.
pub open spec fn digits(n: nat, base: nat) -> Seq<u8>
    decreases n,
{
    if n < base || base < 2 {
        seq![digit(n as int)]
    } else {
        proof {
            assert(n / base < n) by (nonlinear_arith)
                requires
                    n >= base,
                    base >= 2,
            ;
        }
        digits(n / base, base).push(digit((n % base) as int))
    }
}

/// Writes a number in the given base.
fn write_digits(n: usize, base: usize) -> (r: Vec<u8>)
    requires
        2 <= base <= 16,
    ensures
        r@ == digits(n as nat, base as nat),
    decreases n,
{
    if n < base {
        let d: u8 = n as u8;
        let mut r: Vec<u8> = Vec::new();
        r.push(if d < 10 {
            48 + d
        } else {
            87 + d
        });
        assert(r@ =~= seq![digit(n as int)]);
        r
    } else {
        proof {
            assert(n / base < n) by (nonlinear_arith)
                requires
                    n >= base,
                    base >= 2,
            ;
        }
        let mut r = write_digits(n / base, base);
        let d: u8 = (n % base) as u8;
        r.push(if d < 10 {
            48 + d
        } else {
            87 + d
        });
        r
    }
}

/// What a location is called: the last of the names found for it, or its address in hexadecimal.
pub open spec fn symbol_name(ip: usize, found: Seq<Vec<u8>>) -> Seq<u8> {
    if found.len() > 0 {
        found.last()@
    } else {
        seq![48u8, 120u8] + digits(ip as nat, 16)
    }
}

/// Chooses the name of a location among those found for it.
pub fn choose_name(ip: usize, found: &Vec<Vec<u8>>) -> (r: Vec<u8>)
    ensures
        r@ == symbol_name(ip, found@),
{
    if found.len() > 0 {
        vstd::slice::slice_to_vec(found[found.len() - 1].as_slice())
    } else {
        let mut r: Vec<u8> = Vec::new();
        r.push(48);
        r.push(120);
        let mut hex = write_digits(ip, 16);
        r.append(&mut hex);
        assert(r@ =~= seq![48u8, 120u8] + digits(ip as nat, 16));
        r
    }
}

/// Adds a name, if there is one, to those found.
pub fn note_name(found: &mut Vec<Vec<u8>>, name: Option<Vec<u8>>)
    ensures
        final(found)@ == (match name {
            Some(n) => old(found)@.push(n),
            None => old(found)@,
        }),
{
    match name {
        Some(n) => found.push(n),
        None => {},
    }
}

/// The names of the symbols at an instruction address, from `backtrace::resolve`: for each symbol
/// that it visits and that has a name, the name as UTF-8, handed to [`note_name`] in that order.
///
/// Which symbols there are depends on the program that runs; nothing is said of them.
#[verifier::external_body]
fn symbol_names(ip: usize) -> (found: Vec<Vec<u8>>) {
    let mut found: Vec<Vec<u8>> = Vec::new();
    backtrace::resolve(
        core::ptr::without_provenance_mut(ip),
        |symbol| note_name(&mut found, symbol.name().map(|n| n.to_string().into_bytes())),
    );
    found
}

/// `found` is what looking up the names at `ip` in the running program can give.
pub closed spec fn symbols_found(ip: usize, found: Vec<Vec<u8>>) -> bool {
    call_ensures(symbol_names, (ip,), found)
}

/// The name of the symbol at an instruction address, which is looked up in the running program.
pub fn resolve_symbol(ip: usize) -> (r: Vec<u8>)
    ensures
        names_location(ip, r@),
{
    let found = symbol_names(ip);
    assert(symbols_found(ip, found));
    choose_name(ip, &found)
}

/// The locations with `ip` among them.
pub open spec fn with_ip(ips: Seq<usize>, ip: usize) -> Seq<usize> {
    if ips.contains(ip) {
        ips
    } else {
        ips.push(ip)
    }
}

/// The locations with all frames of a trace among them.
pub open spec fn with_frames(ips: Seq<usize>, frames: Seq<usize>) -> Seq<usize>
    decreases frames.len(),
{
    if frames.len() == 0 {
        ips
    } else {
        with_ip(with_frames(ips, frames.drop_last()), frames.last())
    }
}

/// The locations of all traces, each once, in the order in which they first occur.
pub open spec fn located(stacks: Seq<Seq<usize>>) -> Seq<usize>
    decreases stacks.len(),
{
    if stacks.len() == 0 {
        Seq::empty()
    } else {
        with_frames(located(stacks.drop_last()), stacks.last())
    }
}

/// The id of a location: its place among the locations, from one on.
pub open spec fn location_id(ips: Seq<usize>, ip: usize) -> u64 {
    (ips.index_of(ip) + 1) as u64
}

/// A signed number as the unsigned number with the same bits.
pub open spec fn unsigned(n: int) -> u64 {
    (if n < 0 {
        n + 0x1_0000_0000_0000_0000
    } else {
        n
    }) as u64
}

/// A signed number as the unsigned number with the same bits.
fn cast_unsigned(n: i64) -> (r: u64)
    ensures
        r == unsigned(n as int),
{
    if n >= 0 {
        n as u64
    } else {
        u64::MAX - (-(n + 1)) as u64
    }
}

/// The strings that every profile begins with.
pub open spec fn base_strings() -> Seq<Seq<u8>> {
    seq![
        "".spec_bytes(),
        "alloc_objects".spec_bytes(),
        "alloc_space".spec_bytes(),
        "inuse_objects".spec_bytes(),
        "inuse_space".spec_bytes(),
        "count".spec_bytes(),
        "bytes".spec_bytes(),
        "size_class".spec_bytes(),
        "space".spec_bytes(),
    ]
}

/// A stack trace appears in the profile.
pub open spec fn is_emitted(c: StackCounters) -> bool {
    !(c.alloc_count == 0 && c.live_count == 0)
}

/// Size classes in decimal.
pub open spec fn class_strings(classes: Seq<u8>) -> Seq<Seq<u8>> {
    Seq::new(classes.len(), |i: int| digits(classes[i] as nat, 10))
}

/// The strings of the labels of the first `k` samples.
pub open spec fn label_strings(
    counters: Seq<StackCounters>,
    classes: Seq<Seq<u8>>,
    k: int,
) -> Seq<Seq<u8>>
    decreases k,
{
    if k <= 0 {
        Seq::empty()
    } else {
        let rest = label_strings(counters, classes, k - 1);
        if is_emitted(counters[k - 1]) {
            rest + class_strings(classes[k - 1])
        } else {
            rest
        }
    }
}

/// The string table of a profile.
pub open spec fn string_table(
    counters: Seq<StackCounters>,
    names: Seq<Seq<u8>>,
    classes: Seq<Seq<u8>>,
) -> Seq<Seq<u8>> {
    with_strings(
        with_strings(with_strings(Seq::empty(), base_strings()), names),
        label_strings(counters, classes, counters.len() as int),
    )
}

/// The index of a string in the table.
pub open spec fn string_id(table: Seq<Seq<u8>>, s: Seq<u8>) -> u64 {
    table.index_of(s) as u64
}

/// A value type: the indices of the strings of a type and a unit.
pub open spec fn value_type(table: Seq<Seq<u8>>, ty: Seq<u8>, unit: Seq<u8>) -> Seq<u8> {
    message(pair(string_id(table, ty), string_id(table, unit)))
}

/// The four sample types.
pub open spec fn type_fields(table: Seq<Seq<u8>>) -> Seq<Field> {
    let s = base_strings();
    seq![
        Field::Bytes { number: 1, data: value_type(table, s[1], s[5]) },
        Field::Bytes { number: 1, data: value_type(table, s[2], s[6]) },
        Field::Bytes { number: 1, data: value_type(table, s[3], s[5]) },
        Field::Bytes { number: 1, data: value_type(table, s[4], s[6]) },
    ]
}

/// The locations of a sample.
pub open spec fn sample_locations(ips: Seq<usize>, frames: Seq<usize>) -> Seq<Field> {
    Seq::new(
        frames.len(),
        |i: int| Field::Varint { number: 1, value: location_id(ips, frames[i]) },
    )
}

/// The values of a sample, in the order of the sample types.
pub open spec fn sample_values(c: StackCounters) -> Seq<Field> {
    seq![
        Field::Varint { number: 2, value: c.alloc_count },
        Field::Varint { number: 2, value: c.alloc_bytes },
        Field::Varint { number: 2, value: unsigned(c.live_count as int) },
        Field::Varint { number: 2, value: unsigned(c.live_bytes as int) },
    ]
}

/// The labels of a sample: one for each size class that has been sampled at its trace.
pub open spec fn sample_labels(table: Seq<Seq<u8>>, classes: Seq<u8>) -> Seq<Field> {
    Seq::new(
        classes.len(),
        |i: int|
            Field::Bytes {
                number: 3,
                data: message(
                    pair(
                        string_id(table, base_strings()[7]),
                        string_id(table, digits(classes[i] as nat, 10)),
                    ),
                ),
            },
    )
}

/// A sample.
pub open spec fn sample(
    ips: Seq<usize>,
    frames: Seq<usize>,
    c: StackCounters,
    table: Seq<Seq<u8>>,
    classes: Seq<u8>,
) -> Seq<u8> {
    message(sample_locations(ips, frames) + sample_values(c) + sample_labels(table, classes))
}

/// The samples of the first `k` stack traces.
pub open spec fn sample_fields(
    v: ProfView,
    table: Seq<Seq<u8>>,
    k: int,
) -> Seq<Field>
    decreases k,
{
    if k <= 0 {
        Seq::empty()
    } else {
        let rest = sample_fields(v, table, k - 1);
        if is_emitted(v.counters[k - 1]) {
            rest.push(
                Field::Bytes {
                    number: 2,
                    data: sample(
                        located(v.stacks),
                        v.stacks[k - 1],
                        v.counters[k - 1],
                        table,
                        v.classes[k - 1],
                    ),
                },
            )
        } else {
            rest
        }
    }
}

/// The line of a location: its function.
pub open spec fn line(id: u64) -> Seq<Field> {
    seq![Field::Varint { number: 1, value: id }]
}

/// A location: its id and its line.
pub open spec fn location(id: u64) -> Seq<Field> {
    seq![
        Field::Varint { number: 1, value: id },
        Field::Bytes { number: 4, data: message(line(id)) },
    ]
}

/// The first `n` locations.
pub open spec fn location_fields(n: nat) -> Seq<Field> {
    Seq::new(n, |i: int| Field::Bytes { number: 4, data: message(location((i + 1) as u64)) })
}

/// A function: its id and the index of its name.
pub open spec fn function(id: u64, name: u64) -> Seq<Field> {
    seq![
        Field::Varint { number: 1, value: id },
        Field::Varint { number: 2, value: name },
        Field::Varint { number: 3, value: name },
    ]
}

/// The functions, one for each location.
pub open spec fn function_fields(table: Seq<Seq<u8>>, names: Seq<Seq<u8>>) -> Seq<Field> {
    Seq::new(
        names.len(),
        |i: int|
            Field::Bytes {
                number: 5,
                data: message(function((i + 1) as u64, string_id(table, names[i]))),
            },
    )
}

/// The string table.
pub open spec fn string_fields(table: Seq<Seq<u8>>) -> Seq<Field> {
    Seq::new(table.len(), |i: int| Field::Bytes { number: 6, data: table[i] })
}

/// Time, period type and period.
pub open spec fn closing_fields(table: Seq<Seq<u8>>, nanos: u64, interval: u64) -> Seq<Field> {
    let s = base_strings();
    seq![
        Field::Varint { number: 9, value: nanos },
        Field::Bytes { number: 11, data: value_type(table, s[8], s[6]) },
        Field::Varint { number: 12, value: interval },
    ]
}

/// The fields of a profile. `names` are the names of the locations.
pub open spec fn profile_fields(
    v: ProfView,
    names: Seq<Seq<u8>>,
    nanos: u64,
    interval: u64,
) -> Seq<Field> {
    let table = string_table(v.counters, names, v.classes);
    type_fields(table) + sample_fields(v, table, v.stacks.len() as int) + location_fields(
        located(v.stacks).len(),
    ) + function_fields(table, names) + string_fields(table) + closing_fields(
        table,
        nanos,
        interval,
    )
}

/// Adding strings keeps those that are there, and none gets in twice.
proof fn lemma_with_strings(table: Seq<Seq<u8>>, list: Seq<Seq<u8>>)
    requires
        table.no_duplicates(),
    ensures
        with_strings(table, list).no_duplicates(),
        extends(table, with_strings(table, list)),
    decreases list.len(),
{
    if list.len() > 0 {
        lemma_with_strings(table, list.drop_last());
    }
}

/// Adding strings one at a time.
proof fn lemma_with_strings_push(table: Seq<Seq<u8>>, list: Seq<Seq<u8>>, s: Seq<u8>)
    ensures
        with_strings(table, list.push(s)) == with_string(with_strings(table, list), s),
{
    assert(list.push(s).drop_last() =~= list);
}

/// A string found in a table keeps its index in a longer one.
proof fn lemma_string_id(table: Seq<Seq<u8>>, longer: Seq<Seq<u8>>, s: Seq<u8>, i: int)
    requires
        extends(table, longer),
        longer.no_duplicates(),
        0 <= i < table.len(),
        table[i] == s,
    ensures
        longer.index_of(s) == i,
{
    assert(longer[i] == s);
    assert(longer.contains(s));
    assert(longer[longer.index_of(s)] == s);
}

/// Labels of more samples add to the table.
proof fn lemma_label_strings(
    table: Seq<Seq<u8>>,
    counters: Seq<StackCounters>,
    classes: Seq<Seq<u8>>,
    k: int,
    n: int,
)
    requires
        table.no_duplicates(),
        0 <= k <= n,
    ensures
        extends(
            with_strings(table, label_strings(counters, classes, k)),
            with_strings(table, label_strings(counters, classes, n)),
        ),
        with_strings(table, label_strings(counters, classes, n)).no_duplicates(),
    decreases n - k,
{
    lemma_with_strings(table, label_strings(counters, classes, n));
    if k < n {
        lemma_label_strings(table, counters, classes, k, n - 1);
        let rest = label_strings(counters, classes, n - 1);
        if is_emitted(counters[n - 1]) {
            lemma_with_strings_split(table, rest, class_strings(classes[n - 1]));
            lemma_with_strings(with_strings(table, rest), class_strings(classes[n - 1]));
        }
    }
}

/// A list without its last field, encoded.
proof fn lemma_message_step(fields: Seq<Field>, k: int)
    requires
        0 <= k < fields.len(),
    ensures
        message(fields.take(k + 1)) == message(fields.take(k)) + fields[k].encoded(),
{
    assert(fields.take(k + 1) =~= fields.take(k).push(fields[k]));
    lemma_message_push(fields.take(k), fields[k]);
}

/// A message without fields.
proof fn lemma_message_empty(fields: Seq<Field>)
    ensures
        message(fields.take(0)) == Seq::<u8>::empty(),
        fields.take(fields.len() as int) == fields,
{
    assert(fields.take(0) =~= Seq::empty());
    assert(fields.take(fields.len() as int) =~= fields);
}

/// The places of the locations: each one's number, from one on.
pub open spec fn places(map: Map<usize, u64>, ips: Seq<usize>) -> bool {
    &&& ips.no_duplicates()
    &&& forall|p: usize| #[trigger] map.contains_key(p) <==> ips.contains(p)
    &&& forall|i: int| 0 <= i < ips.len() ==> map[#[trigger] ips[i]] == i + 1
}

/// The locations of all traces, with a map of their places.
fn locate(state: &PprofState) -> (r: (Vec<usize>, HashMap<usize, u64>))
    requires
        state.wf(),
    ensures
        r.0@ == located(state@.stacks),
        places(r.1@, r.0@),
{
    let mut ips: Vec<usize> = Vec::new();
    let mut map: HashMap<usize, u64> = HashMap::new();
    let ghost stacks = state@.stacks;
    let mut i: usize = 0;
    proof {
        assert(stacks.take(0) =~= Seq::empty());
    }
    while i < state.stacks.frames.len()
        invariant
            i <= state.stacks.frames.len(),
            stacks == state@.stacks,
            ips@ == located(stacks.take(i as int)),
            places(map@, ips@),
        decreases state.stacks.frames.len() - i,
    {
        let frames = &state.stacks.frames[i];
        let ghost before = ips@;
        let mut j: usize = 0;
        proof {
            assert(stacks[i as int] == frames@);
            assert(frames@.take(0) =~= Seq::empty());
        }
        while j < frames.len()
            invariant
                j <= frames.len(),
                ips@ == with_frames(before, frames@.take(j as int)),
                places(map@, ips@),
            decreases frames.len() - j,
        {
            let ip: usize = frames[j];
            let ghost part = ips@;
            if !map.contains_key(&ip) {
                proof {
                    crate::bin_proof::lemma_push(part, ip);
                }
                ips.push(ip);
                map.insert(ip, ips.len() as u64);
            }
            proof {
                assert(frames@.take(j + 1).drop_last() =~= frames@.take(j as int));
                assert(frames@.take(j + 1).last() == ip);
                assert forall|k: int| 0 <= k < ips@.len() implies map@[#[trigger] ips@[k]] == k
                    + 1 by {
                    if k < part.len() {
                        assert(part[k] == ips@[k]);
                        assert(part.contains(part[k]));
                    }
                }
            }
            j = j + 1;
        }
        proof {
            assert(frames@.take(j as int) =~= frames@);
            assert(stacks.take(i + 1).drop_last() =~= stacks.take(i as int));
            assert(stacks.take(i + 1).last() == frames@);
        }
        i = i + 1;
    }
    proof {
        assert(stacks.take(i as int) =~= stacks);
    }
    (ips, map)
}

/// Appends the locations.
fn append_locations(buf: &mut Vec<u8>, n: usize)
    ensures
        final(buf)@ == old(buf)@ + message(location_fields(n as nat)),
{
    let ghost all = location_fields(n as nat);
    proof {
        lemma_message_empty(all);
        assert(buf@ =~= buf@ + Seq::<u8>::empty());
    }
    let mut i: usize = 0;
    while i < n
        invariant
            i <= n,
            all == location_fields(n as nat),
            buf@ == old(buf)@ + message(all.take(i as int)),
        decreases n - i,
    {
        let id: u64 = i as u64 + 1;
        let mut line_buf: Vec<u8> = Vec::new();
        encode_varint_field(&mut line_buf, 1, id);
        let mut loc: Vec<u8> = Vec::new();
        encode_varint_field(&mut loc, 1, id);
        encode_field(&mut loc, 4, line_buf.as_slice());
        proof {
            lemma_message_one(line(id));
            assert(line_buf@ =~= message(line(id)));
            lemma_message_two(location(id));
            assert(loc@ =~= message(location(id)));
            lemma_message_step(all, i as int);
        }
        let ghost before = buf@;
        encode_field(buf, 4, loc.as_slice());
        assert(buf@ =~= old(buf)@ + message(all.take(i + 1)));
        i = i + 1;
    }
    proof {
        lemma_message_empty(all);
    }
}

/// A message of one field.
proof fn lemma_message_one(fields: Seq<Field>)
    requires
        fields.len() == 1,
    ensures
        message(fields) == fields[0].encoded(),
{
    lemma_message_empty(fields);
    lemma_message_step(fields, 0);
    assert(Seq::<u8>::empty() + fields[0].encoded() =~= fields[0].encoded());
}

/// A message of two fields.
proof fn lemma_message_two(fields: Seq<Field>)
    requires
        fields.len() == 2,
    ensures
        message(fields) == fields[0].encoded() + fields[1].encoded(),
{
    lemma_message_empty(fields);
    lemma_message_step(fields, 0);
    lemma_message_step(fields, 1);
    assert(Seq::<u8>::empty() + fields[0].encoded() =~= fields[0].encoded());
}

/// Appends the functions. `ids` are the indices of their names.
fn append_functions(
    buf: &mut Vec<u8>,
    ids: &Vec<usize>,
    table: Ghost<Seq<Seq<u8>>>,
    names: Ghost<Seq<Seq<u8>>>,
)
    requires
        ids.len() == names@.len(),
        forall|i: int|
            0 <= i < ids.len() ==> table@.index_of(#[trigger] names@[i]) == ids@[i],
    ensures
        final(buf)@ == old(buf)@ + message(function_fields(table@, names@)),
{
    let ghost all = function_fields(table@, names@);
    proof {
        lemma_message_empty(all);
        assert(buf@ =~= buf@ + Seq::<u8>::empty());
    }
    let mut i: usize = 0;
    while i < ids.len()
        invariant
            i <= ids.len(),
            ids.len() == names@.len(),
            all == function_fields(table@, names@),
            forall|k: int|
                0 <= k < ids.len() ==> table@.index_of(#[trigger] names@[k]) == ids@[k],
            buf@ == old(buf)@ + message(all.take(i as int)),
        decreases ids.len() - i,
    {
        let id: u64 = i as u64 + 1;
        let name: u64 = ids[i] as u64;
        let mut func: Vec<u8> = Vec::new();
        encode_varint_field(&mut func, 1, id);
        encode_varint_field(&mut func, 2, name);
        encode_varint_field(&mut func, 3, name);
        proof {
            assert(table@.index_of(names@[i as int]) == name);
            let f = function(id, name);
            lemma_message_empty(f);
            lemma_message_step(f, 0);
            lemma_message_step(f, 1);
            lemma_message_step(f, 2);
            assert(func@ =~= message(f));
            lemma_message_step(all, i as int);
        }
        encode_field(buf, 5, func.as_slice());
        assert(buf@ =~= old(buf)@ + message(all.take(i + 1)));
        i = i + 1;
    }
    proof {
        lemma_message_empty(all);
    }
}

/// Appends the string table.
fn append_strings(buf: &mut Vec<u8>, strings: &StringTable)
    ensures
        final(buf)@ == old(buf)@ + message(string_fields(strings@)),
{
    let ghost all = string_fields(strings@);
    proof {
        lemma_message_empty(all);
        assert(buf@ =~= buf@ + Seq::<u8>::empty());
    }
    let mut i: usize = 0;
    while i < strings.table.len()
        invariant
            i <= strings.table.len(),
            all == string_fields(strings@),
            buf@ == old(buf)@ + message(all.take(i as int)),
        decreases strings.table.len() - i,
    {
        proof {
            lemma_message_step(all, i as int);
        }
        encode_bytes_field(buf, 6, strings.table[i].as_slice());
        assert(buf@ =~= old(buf)@ + message(all.take(i + 1)));
        i = i + 1;
    }
    proof {
        lemma_message_empty(all);
    }
}

/// Encodes a sample. `labels` are the indices of the strings of its labels.
#[verifier::rlimit(60)]
fn encode_sample(
    frames: &Vec<usize>,
    map: &HashMap<usize, u64>,
    ips: Ghost<Seq<usize>>,
    c: StackCounters,
    key: u64,
    labels: &Vec<usize>,
    table: Ghost<Seq<Seq<u8>>>,
    classes: Ghost<Seq<u8>>,
) -> (r: Vec<u8>)
    requires
        places(map@, ips@),
        forall|i: int| 0 <= i < frames.len() ==> ips@.contains(#[trigger] frames@[i]),
        key == string_id(table@, base_strings()[7]),
        labels.len() == classes@.len(),
        forall|i: int|
            0 <= i < labels.len() ==> #[trigger] labels@[i] == table@.index_of(
                digits(classes@[i] as nat, 10),
            ),
    ensures
        r@ == sample(ips@, frames@, c, table@, classes@),
{
    let mut buf: Vec<u8> = Vec::new();
    let ghost locs = sample_locations(ips@, frames@);
    let ghost vals = sample_values(c);
    proof {
        lemma_message_empty(locs);
        assert(buf@ =~= Seq::<u8>::empty());
    }
    let mut i: usize = 0;
    while i < frames.len()
        invariant
            i <= frames.len(),
            places(map@, ips@),
            forall|k: int| 0 <= k < frames.len() ==> ips@.contains(#[trigger] frames@[k]),
            locs == sample_locations(ips@, frames@),
            buf@ == message(locs.take(i as int)),
        decreases frames.len() - i,
    {
        let ip: usize = frames[i];
        proof {
            assert(ips@.contains(frames@[i as int]));
            let k = ips@.index_of(ip);
            assert(ips@[k] == ip);
            assert(map@[ips@[k]] == k + 1);
            lemma_message_step(locs, i as int);
        }
        let id: u64 = *map.get(&ip).unwrap();
        encode_varint_field(&mut buf, 1, id);
        i = i + 1;
    }
    proof {
        lemma_message_empty(locs);
    }
    encode_varint_field(&mut buf, 2, c.alloc_count);
    encode_varint_field(&mut buf, 2, c.alloc_bytes);
    encode_varint_field(&mut buf, 2, cast_unsigned(c.live_count));
    encode_varint_field(&mut buf, 2, cast_unsigned(c.live_bytes));
    proof {
        lemma_message_empty(vals);
        lemma_message_step(vals, 0);
        lemma_message_step(vals, 1);
        lemma_message_step(vals, 2);
        lemma_message_step(vals, 3);
        assert(buf@ =~= message(locs) + message(vals));
        lemma_message_concat(locs, vals);
    }
    let ghost head = buf@;
    let ghost tail = sample_labels(table@, classes@);
    proof {
        lemma_message_empty(tail);
        assert(buf@ =~= head + Seq::<u8>::empty());
    }
    let mut k: usize = 0;
    while k < labels.len()
        invariant
            k <= labels.len(),
            labels.len() == classes@.len(),
            key == string_id(table@, base_strings()[7]),
            forall|i: int|
                0 <= i < labels.len() ==> #[trigger] labels@[i] == table@.index_of(
                    digits(classes@[i] as nat, 10),
                ),
            tail == sample_labels(table@, classes@),
            buf@ == head + message(tail.take(k as int)),
        decreases labels.len() - k,
    {
        let bytes = encode_label(key, labels[k] as u64);
        proof {
            lemma_message_step(tail, k as int);
        }
        encode_field(&mut buf, 3, bytes.as_slice());
        assert(buf@ =~= head + message(tail.take(k + 1)));
        k = k + 1;
    }
    proof {
        lemma_message_empty(tail);
        lemma_message_concat(locs + vals, tail);
    }
    buf
}

/// Adds size classes in decimal to the table. Returns their indices.
fn intern_classes(strings: &mut StringTable, classes: &Vec<u8>) -> (r: Vec<usize>)
    requires
        old(strings).wf(),
    ensures
        final(strings).wf(),
        final(strings)@ == with_strings(old(strings)@, class_strings(classes@)),
        r.len() == classes.len(),
        forall|i: int|
            0 <= i < r.len() ==> r@[i] < final(strings)@.len() && final(strings)@[(
            #[trigger] r@[i]) as int] == digits(classes@[i] as nat, 10),
{
    let ghost all = class_strings(classes@);
    let mut r: Vec<usize> = Vec::new();
    let mut i: usize = 0;
    proof {
        assert(all.take(0) =~= Seq::empty());
    }
    while i < classes.len()
        invariant
            i <= classes.len(),
            all == class_strings(classes@),
            strings.wf(),
            strings@ == with_strings(old(strings)@, all.take(i as int)),
            r.len() == i,
            forall|k: int|
                0 <= k < r.len() ==> r@[k] < strings@.len() && strings@[(#[trigger] r@[k]) as int]
                    == digits(classes@[k] as nat, 10),
        decreases classes.len() - i,
    {
        let text = write_digits(classes[i] as usize, 10);
        proof {
            assert(all.take(i + 1) =~= all.take(i as int).push(all[i as int]));
            lemma_with_strings_push(old(strings)@, all.take(i as int), all[i as int]);
        }
        let id: usize = strings.intern(text.as_slice());
        r.push(id);
        i = i + 1;
    }
    proof {
        assert(all.take(i as int) =~= all);
    }
    r
}

/// Appends the samples, and adds the strings of their labels to the table.
fn append_samples(
    buf: &mut Vec<u8>,
    state: &PprofState,
    map: &HashMap<usize, u64>,
    strings: &mut StringTable,
    key: usize,
)
    requires
        state.wf(),
        old(strings).wf(),
        places(map@, located(state@.stacks)),
        key < old(strings)@.len(),
        old(strings)@[key as int] == base_strings()[7],
    ensures
        final(strings).wf(),
        ({
            let n = state@.stacks.len() as int;
            let table = with_strings(
                old(strings)@,
                label_strings(state@.counters, state@.classes, n),
            );
            &&& final(strings)@ == table
            &&& final(buf)@ == old(buf)@ + message(sample_fields(state@, table, n))
        }),
{
    let ghost v = state@;
    let ghost start = strings@;
    let ghost n = v.stacks.len() as int;
    let ghost table = with_strings(start, label_strings(v.counters, v.classes, n));
    let ghost ips = located(v.stacks);
    let mut i: usize = 0;
    proof {
        lemma_label_strings(start, v.counters, v.classes, 0, n);
        lemma_string_id(start, table, base_strings()[7], key as int);
        assert(message(Seq::<Field>::empty()) =~= Seq::<u8>::empty());
        assert(buf@ =~= buf@ + Seq::<u8>::empty());
    }
    while i < state.stacks.frames.len()
        invariant
            i <= state.stacks.frames.len(),
            state.wf(),
            v == state@,
            n == v.stacks.len(),
            ips == located(v.stacks),
            strings.wf(),
            start.no_duplicates(),
            table == with_strings(start, label_strings(v.counters, v.classes, n)),
            strings@ == with_strings(start, label_strings(v.counters, v.classes, i as int)),
            places(map@, ips),
            table.index_of(base_strings()[7]) == key,
            buf@ == old(buf)@ + message(sample_fields(v, table, i as int)),
        decreases state.stacks.frames.len() - i,
    {
        let c = state.stacks.counters[i];
        let ghost done = sample_fields(v, table, i as int);
        if !(c.alloc_count == 0 && c.live_count == 0) {
            let classes = &state.stacks.classes[i];
            let ghost part = label_strings(v.counters, v.classes, i as int);
            proof {
                assert(v.classes[i as int] == classes@);
                lemma_with_strings_split(start, part, class_strings(classes@));
            }
            let labels = intern_classes(strings, classes);
            proof {
                lemma_label_strings(start, v.counters, v.classes, i + 1, n);
                assert forall|k: int| 0 <= k < labels.len() implies #[trigger] labels@[k]
                    == table.index_of(digits(classes@[k] as nat, 10)) by {
                    lemma_string_id(
                        strings@,
                        table,
                        digits(classes@[k] as nat, 10),
                        labels@[k] as int,
                    );
                }
            }
            proof {
                assert forall|j: int| 0 <= j < v.stacks[i as int].len() implies ips.contains(
                    #[trigger] v.stacks[i as int][j],
                ) by {
                    lemma_located(v.stacks, i as int, j);
                }
            }
            let bytes = encode_sample(
                &state.stacks.frames[i],
                map,
                Ghost(ips),
                c,
                key as u64,
                &labels,
                Ghost(table),
                Ghost(classes@),
            );
            encode_field(buf, 2, bytes.as_slice());
            proof {
                let field = Field::Bytes { number: 2, data: bytes@ };
                lemma_message_push(done, field);
                assert(sample_fields(v, table, i + 1) == done.push(field));
                assert(buf@ =~= old(buf)@ + message(sample_fields(v, table, i + 1)));
            }
        }
        i = i + 1;
    }
}

/// Every frame of every trace is among the locations.
proof fn lemma_located(stacks: Seq<Seq<usize>>, i: int, j: int)
    requires
        0 <= i < stacks.len(),
        0 <= j < stacks[i].len(),
    ensures
        located(stacks).contains(stacks[i][j]),
    decreases stacks.len(),
{
    let rest = located(stacks.drop_last());
    if i == stacks.len() - 1 {
        lemma_with_frames(rest, stacks.last(), j);
    } else {
        lemma_located(stacks.drop_last(), i, j);
        lemma_with_frames_keeps(rest, stacks.last(), stacks[i][j]);
    }
}

/// The frames of a trace are among the locations once they have been added.
proof fn lemma_with_frames(ips: Seq<usize>, frames: Seq<usize>, j: int)
    requires
        0 <= j < frames.len(),
    ensures
        with_frames(ips, frames).contains(frames[j]),
    decreases frames.len(),
{
    let rest = with_frames(ips, frames.drop_last());
    crate::bin_proof::lemma_push(rest, frames.last());
    if j < frames.len() - 1 {
        lemma_with_frames(ips, frames.drop_last(), j);
        assert(frames.drop_last()[j] == frames[j]);
    }
}

/// Adding the frames of a trace keeps the locations that are there.
proof fn lemma_with_frames_keeps(ips: Seq<usize>, frames: Seq<usize>, p: usize)
    requires
        ips.contains(p),
    ensures
        with_frames(ips, frames).contains(p),
    decreases frames.len(),
{
    if frames.len() > 0 {
        lemma_with_frames_keeps(ips, frames.drop_last(), p);
        crate::bin_proof::lemma_push(with_frames(ips, frames.drop_last()), frames.last());
    }
}

/// Names as bytes.
pub open spec fn byte_strings(names: Seq<Vec<u8>>) -> Seq<Seq<u8>> {
    Seq::new(names.len(), |i: int| names[i]@)
}

/// Adds the strings that every profile begins with to an empty table. Returns their indices.
fn intern_base(strings: &mut StringTable) -> (r: Vec<usize>)
    requires
        old(strings).wf(),
        old(strings)@ == Seq::<Seq<u8>>::empty(),
    ensures
        final(strings).wf(),
        final(strings)@ == with_strings(Seq::empty(), base_strings()),
        r.len() == base_strings().len(),
        forall|i: int|
            0 <= i < r.len() ==> r@[i] < final(strings)@.len() && final(strings)@[(
            #[trigger] r@[i]) as int] == base_strings()[i],
{
    let words: [&str; 9] = [
        "",
        "alloc_objects",
        "alloc_space",
        "inuse_objects",
        "inuse_space",
        "count",
        "bytes",
        "size_class",
        "space",
    ];
    let ghost all = base_strings();
    let mut r: Vec<usize> = Vec::new();
    let mut i: usize = 0;
    proof {
        assert(all.take(0) =~= Seq::empty());
    }
    while i < 9
        invariant
            i <= 9,
            all == base_strings(),
            forall|k: int| 0 <= k < 9 ==> #[trigger] words@[k].spec_bytes() == all[k],
            strings.wf(),
            strings@ == with_strings(Seq::empty(), all.take(i as int)),
            r.len() == i,
            forall|k: int|
                0 <= k < r.len() ==> r@[k] < strings@.len() && strings@[(#[trigger] r@[k]) as int]
                    == all[k],
        decreases 9 - i,
    {
        let word: &str = words[i];
        proof {
            assert(words@[i as int].spec_bytes() == all[i as int]);
            assert(all.take(i + 1) =~= all.take(i as int).push(all[i as int]));
            lemma_with_strings_push(Seq::empty(), all.take(i as int), all[i as int]);
        }
        let id: usize = strings.intern(word.as_bytes());
        r.push(id);
        i = i + 1;
    }
    proof {
        assert(all.take(9) =~= all);
    }
    r
}

/// Adds the names of the locations to the table. Returns their indices.
fn intern_names(strings: &mut StringTable, names: &Vec<Vec<u8>>) -> (r: Vec<usize>)
    requires
        old(strings).wf(),
    ensures
        final(strings).wf(),
        final(strings)@ == with_strings(old(strings)@, byte_strings(names@)),
        extends(old(strings)@, final(strings)@),
        r.len() == names.len(),
        forall|i: int|
            0 <= i < r.len() ==> r@[i] < final(strings)@.len() && final(strings)@[(
            #[trigger] r@[i]) as int] == names@[i]@,
{
    let ghost all = byte_strings(names@);
    let mut r: Vec<usize> = Vec::new();
    let mut i: usize = 0;
    proof {
        assert(all.take(0) =~= Seq::empty());
    }
    while i < names.len()
        invariant
            i <= names.len(),
            all == byte_strings(names@),
            strings.wf(),
            strings@ == with_strings(old(strings)@, all.take(i as int)),
            extends(old(strings)@, strings@),
            r.len() == i,
            forall|k: int|
                0 <= k < r.len() ==> r@[k] < strings@.len() && strings@[(#[trigger] r@[k]) as int]
                    == names@[k]@,
        decreases names.len() - i,
    {
        proof {
            assert(all.take(i + 1) =~= all.take(i as int).push(all[i as int]));
            lemma_with_strings_push(old(strings)@, all.take(i as int), all[i as int]);
        }
        let id: usize = strings.intern(names[i].as_slice());
        r.push(id);
        i = i + 1;
    }
    proof {
        assert(all.take(i as int) =~= all);
    }
    r
}

/// `ids` are the indices of the strings that every profile begins with.
pub open spec fn indexes_base(table: Seq<Seq<u8>>, ids: Seq<usize>) -> bool {
    &&& ids.len() == 9
    &&& forall|i: int|
        0 <= i < 9 ==> ids[i] == table.index_of(#[trigger] base_strings()[i])
}

/// Appends a value type.
fn append_type(
    buf: &mut Vec<u8>,
    number: u32,
    ids: &Vec<usize>,
    ty: usize,
    unit: usize,
    table: Ghost<Seq<Seq<u8>>>,
)
    requires
        indexes_base(table@, ids@),
        ty < 9,
        unit < 9,
    ensures
        final(buf)@ == old(buf)@ + (Field::Bytes {
            number,
            data: value_type(table@, base_strings()[ty as int], base_strings()[unit as int]),
        }).encoded(),
{
    proof {
        assert(ids@[ty as int] == table@.index_of(base_strings()[ty as int]));
        assert(ids@[unit as int] == table@.index_of(base_strings()[unit as int]));
    }
    let vt = encode_value_type(ids[ty] as u64, ids[unit] as u64);
    encode_field(buf, number, vt.as_slice());
}

/// Appends the sample types.
fn append_types(buf: &mut Vec<u8>, ids: &Vec<usize>, table: Ghost<Seq<Seq<u8>>>)
    requires
        indexes_base(table@, ids@),
    ensures
        final(buf)@ == old(buf)@ + message(type_fields(table@)),
{
    append_type(buf, 1, ids, 1, 5, table);
    append_type(buf, 1, ids, 2, 6, table);
    append_type(buf, 1, ids, 3, 5, table);
    append_type(buf, 1, ids, 4, 6, table);
    proof {
        let f = type_fields(table@);
        lemma_message_empty(f);
        lemma_message_step(f, 0);
        lemma_message_step(f, 1);
        lemma_message_step(f, 2);
        lemma_message_step(f, 3);
        assert(buf@ =~= old(buf)@ + message(f));
    }
}

/// Appends time, period type and period.
fn append_closing(
    buf: &mut Vec<u8>,
    ids: &Vec<usize>,
    nanos: u64,
    interval: u64,
    table: Ghost<Seq<Seq<u8>>>,
)
    requires
        indexes_base(table@, ids@),
    ensures
        final(buf)@ == old(buf)@ + message(closing_fields(table@, nanos, interval)),
{
    encode_varint_field(buf, 9, nanos);
    append_type(buf, 11, ids, 8, 6, table);
    encode_varint_field(buf, 12, interval);
    proof {
        let f = closing_fields(table@, nanos, interval);
        lemma_message_empty(f);
        lemma_message_step(f, 0);
        lemma_message_step(f, 1);
        lemma_message_step(f, 2);
        assert(buf@ =~= old(buf)@ + message(f));
    }
}

/// Builds a profile as protobuf. `names` are the names of the locations in their order.
pub fn assemble_profile(
    state: &PprofState,
    names: &Vec<Vec<u8>>,
    nanos: u64,
    interval: u64,
) -> (r: Vec<u8>)
    requires
        state.wf(),
        names.len() == located(state@.stacks).len(),
    ensures
        r@ == message(profile_fields(state@, byte_strings(names@), nanos, interval)),
{
    let ghost v = state@;
    let ghost texts = byte_strings(names@);
    let ghost base = base_strings();
    let ghost table = string_table(v.counters, texts, v.classes);
    let ghost n = v.stacks.len() as int;
    let mut strings = StringTable::new();
    let ids = intern_base(&mut strings);
    let ghost t1 = strings@;
    let name_ids = intern_names(&mut strings, names);
    let ghost t2 = strings@;
    let (ips, map) = locate(state);
    proof {
        lemma_with_strings(t2, label_strings(v.counters, v.classes, n));
        assert(extends(t1, table));
        assert forall|i: int| 0 <= i < base.len() implies table.index_of(#[trigger] base[i])
            == ids@[i] by {
            lemma_string_id(t1, table, base[i], ids@[i] as int);
        }
        assert forall|i: int| 0 <= i < texts.len() implies table.index_of(#[trigger] texts[i])
            == name_ids@[i] by {
            lemma_string_id(t2, table, texts[i], name_ids@[i] as int);
        }
        assert(t1[ids@[7] as int] == base[7]);
    }
    let mut profile: Vec<u8> = Vec::new();
    append_types(&mut profile, &ids, Ghost(table));
    let ghost f1 = type_fields(table);
    proof {
        assert(profile@ =~= message(f1));
    }
    append_samples(&mut profile, state, &map, &mut strings, ids[7]);
    let ghost f2 = f1 + sample_fields(v, table, n);
    proof {
        lemma_message_concat(f1, sample_fields(v, table, n));
    }
    append_locations(&mut profile, ips.len());
    let ghost f3 = f2 + location_fields(ips@.len());
    proof {
        lemma_message_concat(f2, location_fields(ips@.len()));
    }
    append_functions(&mut profile, &name_ids, Ghost(table), Ghost(texts));
    let ghost f4 = f3 + function_fields(table, texts);
    proof {
        lemma_message_concat(f3, function_fields(table, texts));
    }
    append_strings(&mut profile, &strings);
    let ghost f5 = f4 + string_fields(table);
    proof {
        lemma_message_concat(f4, string_fields(table));
    }
    append_closing(&mut profile, &ids, nanos, interval, Ghost(table));
    proof {
        lemma_message_concat(f5, closing_fields(table, nanos, interval));
    }
    profile
}

/// The names of the locations, and for each the names that were found, from which it was chosen.
fn resolve_all(ips: &Vec<usize>) -> (r: Vec<Vec<u8>>)
    ensures
        r.len() == ips.len(),
        forall|i: int| 0 <= i < r.len() ==> names_location(ips@[i], #[trigger] r@[i]@),
{
    let mut names: Vec<Vec<u8>> = Vec::new();
    let mut i: usize = 0;
    while i < ips.len()
        invariant
            i <= ips.len(),
            names.len() == i,
            forall|k: int| 0 <= k < names.len() ==> names_location(ips@[k], #[trigger] names@[k]@),
        decreases ips.len() - i,
    {
        let name = resolve_symbol(ips[i]);
        names.push(name);
        i = i + 1;
    }
    names
}

/// `name` is chosen from the names that looking up `ip` gives.
pub open spec fn names_location(ip: usize, name: Seq<u8>) -> bool {
    exists|found: Vec<Vec<u8>>| #[trigger]
        symbols_found(ip, found) && name == symbol_name(ip, found@)
}

/// What a profile of the state can be: the names of the locations are looked up in the running
/// program.
pub open spec fn is_profile(v: ProfView, bytes: Seq<u8>, nanos: u64, interval: u64) -> bool {
    exists|names: Seq<Seq<u8>>|
        bytes == #[trigger] message(profile_fields(v, names, nanos, interval)) && names.len()
            == located(v.stacks).len() && forall|i: int|
            0 <= i < names.len() ==> names_location(located(v.stacks)[i], #[trigger] names[i])
}

/// Builds a profile of the state as protobuf, with names from the running program.
pub fn build_profile(state: &PprofState, nanos: u64, interval: u64) -> (r: Vec<u8>)
    requires
        state.wf(),
    ensures
        is_profile(state@, r@, nanos, interval),
{
    let (ips, map) = locate(state);
    let names = resolve_all(&ips);
    let r = assemble_profile(state, &names, nanos, interval);
    proof {
        let texts = byte_strings(names@);
        assert forall|i: int| 0 <= i < texts.len() implies names_location(
            located(state@.stacks)[i],
            #[trigger] texts[i],
        ) by {
            assert(names_location(ips@[i], names@[i]@));
        }
        assert(r@ == message(profile_fields(state@, texts, nanos, interval)));
    }
    r
}

/// An I/O error of std.
#[verifier::external_type_specification]
#[verifier::external_body]
pub struct ExIoError(std::io::Error);

/// What `flate2::write::GzEncoder` at the default level makes of the given bytes, written to a
/// vector; `None` where it reports an error.
pub uninterp spec fn gzip_of(data: Seq<u8>) -> Option<Seq<u8>>;

/// Compresses bytes with `flate2::write::GzEncoder` at the default level, writing to a vector.
///
/// The result depends on the bytes alone: the header, of ten bytes, holds no time, no file name
/// and the number 255 for the operating system; eight bytes of checksum and length end it. So does
/// whether there is an error: a vector takes all that is written to it, which leaves the
/// compressor's own errors. Nothing is said of which bytes it could report one for, nor of what
/// the error holds.
#[verifier::external_body]
fn gzip(data: &[u8]) -> (r: Result<Vec<u8>, std::io::Error>)
    ensures
        gzip_of(data@) == (match r {
            Ok(z) => Some(z@),
            Err(_) => None,
        }),
        r matches Ok(z) ==> z@.len() >= 18 && z@.take(10)
            == seq![0x1fu8, 0x8bu8, 8u8, 0u8, 0u8, 0u8, 0u8, 0u8, 0u8, 255u8],
{
    let mut encoder = flate2::write::GzEncoder::new(Vec::new(), flate2::Compression::default());
    encoder.write_all(data)?;
    encoder.finish()
}

/// A profile could not be dumped.
#[derive(Clone, Copy, Debug, PartialEq, Eq, Structural)]
pub enum DumpError {
    /// The profile could not be compressed.
    Compress,
}

/// What a dump gives, from what the compressor gave.
pub fn dumped(compressed: Result<Vec<u8>, std::io::Error>) -> (r: Result<Vec<u8>, DumpError>)
    ensures
        r == (match compressed {
            Ok(z) => Ok::<Vec<u8>, DumpError>(z),
            Err(_) => Err(DumpError::Compress),
        }),
{
    match compressed {
        Ok(z) => Ok(z),
        Err(_) => Err(DumpError::Compress),
    }
}

/// `r` is what a dump gives, where `compressed` is what the compressor makes of the profile.
pub open spec fn is_dump(compressed: Option<Seq<u8>>, r: Result<Vec<u8>, DumpError>) -> bool {
    match compressed {
        Some(z) => r is Ok && r->Ok_0@ == z,
        None => r == Err::<Vec<u8>, DumpError>(DumpError::Compress),
    }
}

/// Dumps the profile as gzip'd pprof protobuf. Fails where the compressor fails on the profile,
/// and only there.
///
/// The thread is marked as inside the profiler meanwhile, so that what is allocated for the dump
/// is not sampled.
pub fn dump(
    guard: &mut ReentrancyGuard,
    state: &PprofState,
    control: &PprofControl,
    nanos: u64,
) -> (r: Result<Vec<u8>, DumpError>)
    requires
        state.wf(),
    ensures
        *final(guard) == *old(guard),
        exists|bytes: Seq<u8>|
            is_profile(state@, bytes, nanos, control.sample_interval) && is_dump(
                #[trigger] gzip_of(bytes),
                r,
            ),
        r matches Ok(z) ==> z@.len() >= 18 && z@[0] == 0x1f && z@[1] == 0x8b,
{
    let entered: bool = guard.acquire();
    let profile_bytes = build_profile(state, nanos, control.sample_interval);
    let compressed = gzip(profile_bytes.as_slice());
    proof {
        if compressed is Ok {
            let z = compressed->Ok_0@;
            assert(z.take(10)[0] == z[0] && z.take(10)[1] == z[1]);
        }
    }
    if entered {
        guard.release();
    }
    let r = dumped(compressed);
    assert(is_dump(gzip_of(profile_bytes@), r));
    r
}

/// What a profile holds can be read back from its bytes.
pub proof fn law_profile_can_be_read(
    v: ProfView,
    names: Seq<Seq<u8>>,
    nanos: u64,
    interval: u64,
)
    requires
        forall|i: int|
            0 <= i < profile_fields(v, names, nanos, interval).len() ==> (
            #[trigger] profile_fields(v, names, nanos, interval)[i]).wf(),
    ensures
        crate::wire::read_message(
            message(profile_fields(v, names, nanos, interval)),
        ) == Some(profile_fields(v, names, nanos, interval)),
{
    crate::wire::law_message_round_trip(profile_fields(v, names, nanos, interval));
}

/// A sample carries, for each size class that has been sampled at its trace, a label with the key
/// `size_class` and the class in decimal.
pub proof fn law_sample_is_labelled(v: ProfView, names: Seq<Seq<u8>>, i: int, class: u8)
    requires
        v.wf(),
        0 <= i < v.stacks.len(),
        is_emitted(v.counters[i]),
        v.classes[i].contains(class),
    ensures
        ({
            let table = string_table(v.counters, names, v.classes);
            let key = table.index_of("size_class".spec_bytes());
            let text = table.index_of(digits(class as nat, 10));
            &&& 0 <= key < table.len() && table[key] == "size_class".spec_bytes()
            &&& 0 <= text < table.len() && table[text] == digits(class as nat, 10)
            &&& sample_labels(table, v.classes[i]).contains(
                Field::Bytes { number: 3, data: message(pair(key as u64, text as u64)) },
            )
        }),
{
    let t0 = Seq::<Seq<u8>>::empty();
    let base = base_strings();
    let n = v.counters.len() as int;
    let labels = label_strings(v.counters, v.classes, n);
    let table = string_table(v.counters, names, v.classes);
    let word = digits(class as nat, 10);
    let k = choose|k: int| 0 <= k < v.classes[i].len() && v.classes[i][k] == class;
    lemma_label_listed(v.counters, v.classes, n, i, k);
    lemma_with_strings(t0, base);
    lemma_with_strings(with_strings(t0, base), names);
    let t2 = with_strings(with_strings(t0, base), names);
    lemma_with_strings(t2, labels);
    lemma_string_added(t2, labels, word);
    assert(base.contains(base[7]));
    lemma_string_added(t0, base, base[7]);
    let j = choose|j: int|
        0 <= j < with_strings(t0, base).len() && with_strings(t0, base)[j] == base[7];
    assert(table[j] == base[7]);
    assert(table.contains(base[7]));
    assert(sample_labels(table, v.classes[i])[k] == Field::Bytes {
        number: 3,
        data: message(pair(string_id(table, base[7]), string_id(table, word))),
    });
}

/// The strings that are added are in the table.
proof fn lemma_string_added(table: Seq<Seq<u8>>, list: Seq<Seq<u8>>, s: Seq<u8>)
    requires
        list.contains(s),
    ensures
        with_strings(table, list).contains(s),
    decreases list.len(),
{
    let rest = with_strings(table, list.drop_last());
    let k = choose|k: int| 0 <= k < list.len() && list[k] == s;
    if k == list.len() - 1 {
        if !rest.contains(s) {
            assert(rest.push(s)[rest.len() as int] == s);
        }
    } else {
        assert(list.drop_last()[k] == s);
        lemma_string_added(table, list.drop_last(), s);
        let j = choose|j: int| 0 <= j < rest.len() && rest[j] == s;
        assert(rest.push(list.last())[j] == s);
    }
}

/// The size classes of a trace that appears are among the strings of the labels.
proof fn lemma_label_listed(
    counters: Seq<StackCounters>,
    classes: Seq<Seq<u8>>,
    n: int,
    i: int,
    k: int,
)
    requires
        0 <= i < n,
        is_emitted(counters[i]),
        0 <= k < classes[i].len(),
    ensures
        label_strings(counters, classes, n).contains(digits(classes[i][k] as nat, 10)),
    decreases n,
{
    let rest = label_strings(counters, classes, n - 1);
    let word = digits(classes[i][k] as nat, 10);
    if i == n - 1 {
        let all = rest + class_strings(classes[i]);
        assert(all[rest.len() + k] == word);
    } else {
        lemma_label_listed(counters, classes, n - 1, i, k);
        let j = choose|j: int| 0 <= j < rest.len() && rest[j] == word;
        let all = rest + class_strings(classes[n - 1]);
        assert(all[j] == word);
    }
}

/// The first string of every profile is empty, and the strings are distinct.
pub proof fn law_first_string_is_empty(
    counters: Seq<StackCounters>,
    names: Seq<Seq<u8>>,
    classes: Seq<Seq<u8>>,
)
    ensures
        string_table(counters, names, classes).len() > 0,
        string_table(counters, names, classes)[0] == "".spec_bytes(),
        string_table(counters, names, classes).no_duplicates(),
{
    let t0 = Seq::<Seq<u8>>::empty();
    let base = base_strings();
    let one = base.take(1);
    assert(one.drop_last() =~= t0);
    assert(with_strings(t0, one.drop_last()) =~= t0);
    assert(with_strings(t0, one) =~= seq![base[0]]);
    lemma_with_strings_split(t0, one, base.skip(1));
    assert(one + base.skip(1) =~= base);
    let t1 = with_strings(t0, base);
    lemma_with_strings(t0, one);
    lemma_with_strings(with_strings(t0, one), base.skip(1));
    lemma_with_strings(t1, names);
    let t2 = with_strings(t1, names);
    lemma_with_strings(t2, label_strings(counters, classes, counters.len() as int));
}

/// Adding strings in two lots.
proof fn lemma_with_strings_split(table: Seq<Seq<u8>>, a: Seq<Seq<u8>>, b: Seq<Seq<u8>>)
    ensures
        with_strings(table, a + b) == with_strings(with_strings(table, a), b),
    decreases b.len(),
{
    if b.len() == 0 {
        assert(a + b =~= a);
    } else {
        lemma_with_strings_split(table, a, b.drop_last());
        assert((a + b).drop_last() =~= a + b.drop_last());
    }
}

/// The locations are the frames of the traces, all of them and nothing else, each once.
pub proof fn law_locations_are_the_frames(stacks: Seq<Seq<usize>>)
    ensures
        located(stacks).no_duplicates(),
        forall|i: int, k: int|
            #![trigger stacks[i][k]]
            0 <= i < stacks.len() && 0 <= k < stacks[i].len() ==> located(stacks).contains(
                stacks[i][k],
            ),
        forall|p: usize| #[trigger]
            located(stacks).contains(p) ==> exists|i: int, k: int|
                #![trigger stacks[i][k]]
                0 <= i < stacks.len() && 0 <= k < stacks[i].len() && stacks[i][k] == p,
    decreases stacks.len(),
{
    assert forall|i: int, k: int|
        #![trigger stacks[i][k]]
        0 <= i < stacks.len() && 0 <= k < stacks[i].len() implies located(stacks).contains(
        stacks[i][k],
    ) by {
        lemma_located(stacks, i, k);
    }
    if stacks.len() > 0 {
        let front = stacks.drop_last();
        law_locations_are_the_frames(front);
        lemma_frames_only(located(front), stacks.last());
        assert forall|p: usize| #[trigger] located(stacks).contains(p) implies exists|
            i: int,
            k: int,
        |
            #![trigger stacks[i][k]]
            0 <= i < stacks.len() && 0 <= k < stacks[i].len() && stacks[i][k] == p by {
            if located(front).contains(p) {
                let (i, k) = choose|i: int, k: int|
                    #![trigger front[i][k]]
                    0 <= i < front.len() && 0 <= k < front[i].len() && front[i][k] == p;
                assert(stacks[i][k] == p);
            } else {
                let k = choose|k: int| 0 <= k < stacks.last().len() && stacks.last()[k] == p;
                assert(stacks[stacks.len() - 1][k] == p);
            }
        }
    }
}

/// Adding the frames of a trace adds nothing else, and nothing twice.
proof fn lemma_frames_only(ips: Seq<usize>, frames: Seq<usize>)
    requires
        ips.no_duplicates(),
    ensures
        with_frames(ips, frames).no_duplicates(),
        forall|p: usize| #[trigger]
            with_frames(ips, frames).contains(p) ==> ips.contains(p) || frames.contains(p),
    decreases frames.len(),
{
    if frames.len() > 0 {
        let front = frames.drop_last();
        lemma_frames_only(ips, front);
        crate::bin_proof::lemma_push(with_frames(ips, front), frames.last());
        assert forall|p: usize| #[trigger] with_frames(ips, frames).contains(p) implies ips.contains(
            p,
        ) || frames.contains(p) by {
            if p == frames.last() {
                assert(frames[frames.len() - 1] == p);
            } else {
                assert(with_frames(ips, front).contains(p));
                if front.contains(p) {
                    let k = choose|k: int| 0 <= k < front.len() && front[k] == p;
                    assert(frames[k] == p);
                }
            }
        }
    }
}

/// There is one sample for each trace at which something has been allocated or is live, in the
/// order of the traces, and none for another.
pub proof fn law_one_sample_for_each_trace(v: ProfView, table: Seq<Seq<u8>>, k: int)
    requires
        0 <= k < v.stacks.len(),
    ensures
        sample_fields(v, table, 0).len() == 0,
        v.counters[k].alloc_count != 0 || v.counters[k].live_count != 0 ==> sample_fields(
            v,
            table,
            k + 1,
        ).len() == sample_fields(v, table, k).len() + 1,
        v.counters[k].alloc_count == 0 && v.counters[k].live_count == 0 ==> sample_fields(
            v,
            table,
            k + 1,
        ).len() == sample_fields(v, table, k).len(),
        forall|j: int|
            0 <= j < sample_fields(v, table, k).len() ==> #[trigger] sample_fields(
                v,
                table,
                k + 1,
            )[j] == sample_fields(v, table, k)[j],
{
}

/// What is read back from the sample of a trace: as many locations as the trace has frames, of
/// which each is that of the frame at the same place; then the four counters of the trace; then a
/// label for each of its size classes.
///
/// The sample is the next one after those of the traces before it.
#[verifier::rlimit(50)]
pub proof fn law_sample_lists_every_frame(v: ProfView, names: Seq<Seq<u8>>, i: int) -> (fields: Seq<
    Field,
>)
    requires
        v.wf(),
        0 <= i < v.stacks.len(),
        v.counters[i].alloc_count != 0 || v.counters[i].live_count != 0,
        located(v.stacks).len() < u64::MAX,
        string_table(v.counters, names, v.classes).len() <= u64::MAX,
    ensures
        ({
            let table = string_table(v.counters, names, v.classes);
            let place = sample_fields(v, table, i).len() as int;
            let all = sample_fields(v, table, v.stacks.len() as int);
            let frames = v.stacks[i];
            let n = frames.len() as int;
            let c = v.counters[i];
            &&& 0 <= place < all.len()
            &&& all[place] is Bytes
            &&& all[place]->Bytes_number == 2
            &&& crate::wire::read_message(all[place]->data) == Some(fields)
            &&& fields.len() == n + 4 + v.classes[i].len()
            &&& forall|k: int|
                0 <= k < n ==> {
                    &&& (#[trigger] fields[k]) is Varint
                    &&& fields[k]->Varint_number == 1
                    &&& 1 <= fields[k]->value <= located(v.stacks).len()
                    &&& located(v.stacks)[fields[k]->value - 1] == frames[k]
                }
            &&& fields[n] == (Field::Varint { number: 2, value: c.alloc_count })
            &&& fields[n + 1] == (Field::Varint { number: 2, value: c.alloc_bytes })
            &&& fields[n + 2] is Varint && fields[n + 2]->Varint_number == 2
            &&& c.live_count >= 0 ==> fields[n + 2]->value == c.live_count
            &&& c.live_count < 0 ==> fields[n + 2]->value == c.live_count
                + 0x1_0000_0000_0000_0000
            &&& fields[n + 3] is Varint && fields[n + 3]->Varint_number == 2
            &&& c.live_bytes >= 0 ==> fields[n + 3]->value == c.live_bytes
            &&& c.live_bytes < 0 ==> fields[n + 3]->value == c.live_bytes
                + 0x1_0000_0000_0000_0000
            &&& forall|k: int|
                #![trigger v.classes[i][k]]
                0 <= k < v.classes[i].len() ==> {
                    let label = fields[n + 4 + k];
                    &&& label is Bytes
                    &&& label->Bytes_number == 3
                    &&& names_two(
                        label->data,
                        table,
                        "size_class".spec_bytes(),
                        digits(v.classes[i][k] as nat, 10),
                    )
                }
        }),
{
    let table = string_table(v.counters, names, v.classes);
    let ips = located(v.stacks);
    let frames = v.stacks[i];
    let n = frames.len() as int;
    let fields = sample_locations(ips, frames) + sample_values(v.counters[i]) + sample_labels(
        table,
        v.classes[i],
    );
    assert forall|k: int| 0 <= k < fields.len() implies (#[trigger] fields[k]).wf() by {
        if k >= n + 4 {
            let class = v.classes[i][k - n - 4];
            crate::wire::lemma_pair_read(
                string_id(table, base_strings()[7]),
                string_id(table, digits(class as nat, 10)),
            );
        }
    }
    crate::wire::law_message_round_trip(fields);
    lemma_sample_place(v, table, i, v.stacks.len() as int);
    law_locations_are_the_frames(v.stacks);
    assert forall|k: int| 0 <= k < n implies {
        &&& (#[trigger] fields[k]) is Varint
        &&& fields[k]->Varint_number == 1
        &&& 1 <= fields[k]->value <= ips.len()
        &&& ips[fields[k]->value - 1] == frames[k]
    } by {
        assert(ips.contains(v.stacks[i][k]));
        assert(ips[ips.index_of(frames[k])] == frames[k]);
    }
    assert forall|k: int| #![trigger v.classes[i][k]] 0 <= k < v.classes[i].len() implies {
        let label = fields[n + 4 + k];
        &&& label is Bytes
        &&& label->Bytes_number == 3
        &&& names_two(
            label->data,
            table,
            "size_class".spec_bytes(),
            digits(v.classes[i][k] as nat, 10),
        )
    } by {
        let class = v.classes[i][k];
        assert(v.classes[i].contains(class));
        law_sample_is_labelled(v, names, i, class);
        lemma_names_two(table, base_strings()[7], digits(class as nat, 10));
        assert(fields[n + 4 + k] == sample_labels(table, v.classes[i])[k]);
    }
    fields
}

/// `data` reads as two indices into the table, at which the two strings stand.
pub open spec fn names_two(data: Seq<u8>, table: Seq<Seq<u8>>, a: Seq<u8>, b: Seq<u8>) -> bool {
    match crate::wire::read_message(data) {
        Some(f) => {
            &&& f.len() == 2
            &&& f[0] is Varint && f[0]->Varint_number == 1
            &&& f[1] is Varint && f[1]->Varint_number == 2
            &&& f[0]->value < table.len() && table[f[0]->value as int] == a
            &&& f[1]->value < table.len() && table[f[1]->value as int] == b
        },
        None => false,
    }
}

/// The indices of two strings of the table name them.
proof fn lemma_names_two(table: Seq<Seq<u8>>, a: Seq<u8>, b: Seq<u8>)
    requires
        table.len() <= u64::MAX,
        table.contains(a),
        table.contains(b),
    ensures
        names_two(message(pair(string_id(table, a), string_id(table, b))), table, a, b),
{
    assert(table[table.index_of(a)] == a);
    assert(table[table.index_of(b)] == b);
    crate::wire::lemma_pair_read(string_id(table, a), string_id(table, b));
}

/// Where the sample of a trace stands among all samples.
proof fn lemma_sample_place(v: ProfView, table: Seq<Seq<u8>>, i: int, n: int)
    requires
        0 <= i < n,
        is_emitted(v.counters[i]),
    ensures
        ({
            let place = sample_fields(v, table, i).len() as int;
            &&& place < sample_fields(v, table, n).len()
            &&& sample_fields(v, table, n)[place] == (Field::Bytes {
                number: 2,
                data: sample(
                    located(v.stacks),
                    v.stacks[i],
                    v.counters[i],
                    table,
                    v.classes[i],
                ),
            })
        }),
    decreases n,
{
    if i < n - 1 {
        lemma_sample_place(v, table, i, n - 1);
    }
}

/// Every string that a profile begins with is in its table.
proof fn lemma_base_listed(
    counters: Seq<StackCounters>,
    names: Seq<Seq<u8>>,
    classes: Seq<Seq<u8>>,
    i: int,
)
    requires
        0 <= i < 9,
    ensures
        string_table(counters, names, classes).contains(base_strings()[i]),
{
    let t0 = Seq::<Seq<u8>>::empty();
    let base = base_strings();
    let labels = label_strings(counters, classes, counters.len() as int);
    let t1 = with_strings(t0, base);
    let t2 = with_strings(t1, names);
    lemma_with_strings(t0, base);
    lemma_with_strings(t1, names);
    lemma_with_strings(t2, labels);
    assert(base.contains(base[i]));
    lemma_string_added(t0, base, base[i]);
    let j = choose|j: int| 0 <= j < t1.len() && t1[j] == base[i];
    assert(string_table(counters, names, classes)[j] == base[i]);
}

/// Every name is in the table.
proof fn lemma_name_listed(
    counters: Seq<StackCounters>,
    names: Seq<Seq<u8>>,
    classes: Seq<Seq<u8>>,
    i: int,
)
    requires
        0 <= i < names.len(),
    ensures
        string_table(counters, names, classes).contains(names[i]),
{
    let t0 = Seq::<Seq<u8>>::empty();
    let labels = label_strings(counters, classes, counters.len() as int);
    let t1 = with_strings(t0, base_strings());
    let t2 = with_strings(t1, names);
    lemma_with_strings(t0, base_strings());
    lemma_with_strings(t1, names);
    lemma_with_strings(t2, labels);
    assert(names.contains(names[i]));
    lemma_string_added(t1, names, names[i]);
    let j = choose|j: int| 0 <= j < t2.len() && t2[j] == names[i];
    assert(string_table(counters, names, classes)[j] == names[i]);
}

/// A profile is made of four sample types, the samples, a location and a function for each
/// location of the traces, the strings, and time and period.
///
/// The types are those of allocated and of live objects and bytes, in the order of the counters of
/// a sample; the period is one of bytes.
#[verifier::rlimit(50)]
pub proof fn law_profile_parts(
    v: ProfView,
    names: Seq<Seq<u8>>,
    nanos: u64,
    interval: u64,
)
    requires
        string_table(v.counters, names, v.classes).len() <= u64::MAX,
    ensures
        ({
            let table = string_table(v.counters, names, v.classes);
            let fields = profile_fields(v, names, nanos, interval);
            let samples = sample_fields(v, table, v.stacks.len() as int);
            let places = located(v.stacks).len() as int;
            let a = 4 + samples.len() as int;
            let b = a + places + names.len();
            let c = b + table.len();
            let count = "count".spec_bytes();
            let bytes = "bytes".spec_bytes();
            &&& fields.len() == c + 3
            &&& forall|k: int|
                0 <= k < 4 ==> (#[trigger] fields[k]) is Bytes && fields[k]->Bytes_number == 1
            &&& names_two(fields[0]->data, table, "alloc_objects".spec_bytes(), count)
            &&& names_two(fields[1]->data, table, "alloc_space".spec_bytes(), bytes)
            &&& names_two(fields[2]->data, table, "inuse_objects".spec_bytes(), count)
            &&& names_two(fields[3]->data, table, "inuse_space".spec_bytes(), bytes)
            &&& forall|k: int|
                #![trigger samples[k]]
                0 <= k < samples.len() ==> fields[4 + k] == samples[k]
            &&& forall|k: int|
                a <= k < a + places ==> (#[trigger] fields[k]) is Bytes && fields[k]->Bytes_number
                    == 4
            &&& forall|k: int|
                a + places <= k < b ==> (#[trigger] fields[k]) is Bytes && fields[k]->Bytes_number
                    == 5
            &&& forall|k: int|
                #![trigger table[k]]
                0 <= k < table.len() ==> fields[b + k] is Bytes && fields[b + k]->Bytes_number == 6
                    && fields[b + k]->data == table[k]
            &&& fields[c] == (Field::Varint { number: 9, value: nanos })
            &&& fields[c + 1] is Bytes && fields[c + 1]->Bytes_number == 11
            &&& names_two(fields[c + 1]->data, table, "space".spec_bytes(), bytes)
            &&& fields[c + 2] == (Field::Varint { number: 12, value: interval })
        }),
{
    let table = string_table(v.counters, names, v.classes);
    let s = base_strings();
    assert forall|i: int| 0 <= i < 9 implies table.contains(#[trigger] s[i]) by {
        lemma_base_listed(v.counters, names, v.classes, i);
    }
    lemma_names_two(table, s[1], s[5]);
    lemma_names_two(table, s[2], s[6]);
    lemma_names_two(table, s[3], s[5]);
    lemma_names_two(table, s[4], s[6]);
    lemma_names_two(table, s[8], s[6]);
}

/// A location of a profile leads to the function with the same number, and that to the name of the
/// location, which stands at the place in the string table that the function gives.
#[verifier::rlimit(50)]
pub proof fn law_location_leads_to_its_name(
    v: ProfView,
    names: Seq<Seq<u8>>,
    nanos: u64,
    interval: u64,
    id: u64,
)
    requires
        names.len() == located(v.stacks).len(),
        names.len() < u64::MAX,
        1 <= id <= names.len(),
        string_table(v.counters, names, v.classes).len() <= u64::MAX,
    ensures
        ({
            let table = string_table(v.counters, names, v.classes);
            let fields = profile_fields(v, names, nanos, interval);
            let samples = sample_fields(v, table, v.stacks.len() as int);
            let a = 4 + samples.len() as int;
            let b = a + names.len();
            let c = b + names.len();
            let place = crate::wire::read_message(fields[a + id - 1]->data);
            let function = crate::wire::read_message(fields[b + id - 1]->data);
            &&& fields[a + id - 1] is Bytes && fields[a + id - 1]->Bytes_number == 4
            &&& place is Some
            &&& (place->0).len() == 2
            &&& (place->0)[0] == (Field::Varint { number: 1, value: id })
            &&& (place->0)[1] is Bytes && (place->0)[1]->Bytes_number == 4
            &&& crate::wire::read_message((place->0)[1]->data) == Some(
                seq![Field::Varint { number: 1, value: id }],
            )
            &&& fields[b + id - 1] is Bytes && fields[b + id - 1]->Bytes_number == 5
            &&& function is Some
            &&& (function->0).len() == 3
            &&& (function->0)[0] == (Field::Varint { number: 1, value: id })
            &&& (function->0)[1] is Varint && (function->0)[1]->Varint_number == 2
            &&& (function->0)[2] is Varint && (function->0)[2]->Varint_number == 3
            &&& (function->0)[2]->value == (function->0)[1]->value
            &&& (function->0)[1]->value < table.len()
            &&& fields[c + (function->0)[1]->value] == (Field::Bytes {
                number: 6,
                data: names[id - 1],
            })
        }),
{
    let table = string_table(v.counters, names, v.classes);
    let fields = profile_fields(v, names, nanos, interval);
    let samples = sample_fields(v, table, v.stacks.len() as int);
    let a = 4 + samples.len() as int;
    let b = a + names.len();
    let name = names[id - 1];
    let n = string_id(table, name);
    lemma_name_listed(v.counters, names, v.classes, id - 1);
    assert(table[table.index_of(name)] == name);
    assert(fields[a + id - 1] == location_fields(names.len())[id - 1]);
    assert(fields[b + id - 1] == function_fields(table, names)[id - 1]);
    assert(fields[b + names.len() + n] == string_fields(table)[n as int]);
    crate::wire::law_message_round_trip(line(id));
    crate::wire::law_message_round_trip(function(id, n));
    crate::wire::lemma_varint_field_len(1, id);
    lemma_message_one(line(id));
    assert(message(line(id)).len() <= u64::MAX);
    assert forall|k: int| 0 <= k < location(id).len() implies (#[trigger] location(id)[k]).wf() by {
        if k == 1 {
            assert(location(id)[1] == (Field::Bytes { number: 4, data: message(line(id)) }));
        }
    }
    crate::wire::law_message_round_trip(location(id));
}

/// A number is written from the highest digit on: another digit behind it multiplies it by the base
/// and adds the digit, which is one of `0` to `9` and `a` to `f`.
pub proof fn law_next_digit(n: nat, base: nat, d: nat)
    requires
        2 <= base <= 16,
        d < base,
    ensures
        digits(d, base).len() == 1,
        d < 10 ==> digits(d, base)[0] == 48 + d,
        d >= 10 ==> digits(d, base)[0] == 97 + (d - 10),
        n > 0 ==> digits(n * base + d, base) == digits(n, base) + digits(d, base),
{
    if n > 0 {
        let m = n * base + d;
        vstd::arithmetic::div_mod::lemma_fundamental_div_mod_converse(
            m as int,
            base as int,
            n as int,
            d as int,
        );
        assert(m >= base) by (nonlinear_arith)
            requires
                n > 0,
                m == n * base + d,
        ;
        assert(digits(n, base).push(digit(d as int)) =~= digits(n, base) + digits(d, base));
    }
}

/// A location is called by the last of the names that are found for it; where there is none, by
/// `0x` and its address in hexadecimal.
pub proof fn law_last_name_is_taken(ip: usize, found: Seq<Vec<u8>>)
    ensures
        found.len() > 0 ==> symbol_name(ip, found) == found[found.len() - 1]@,
        found.len() == 0 ==> {
            let name = symbol_name(ip, found);
            &&& name.len() == 2 + digits(ip as nat, 16).len()
            &&& name[0] == 48 && name[1] == 120
            &&& name.skip(2) == digits(ip as nat, 16)
        },
{
    if found.len() == 0 {
        assert(symbol_name(ip, found).skip(2) =~= digits(ip as nat, 16));
    }
}

/// The dump of a profile is what the compressor makes of it; it fails exactly where the compressor
/// does.
pub proof fn law_dump_is_the_compressed_profile(
    compressed: Option<Seq<u8>>,
    r: Result<Vec<u8>, DumpError>,
)
    requires
        is_dump(compressed, r),
    ensures
        r is Ok <==> compressed is Some,
        r matches Ok(z) ==> z@ == compressed->0,
{
}

/// A profile holds a name for each location, and each is looked up in the running program.
pub proof fn law_every_location_is_looked_up(
    v: ProfView,
    bytes: Seq<u8>,
    nanos: u64,
    interval: u64,
) -> (names: Seq<Seq<u8>>)
    requires
        is_profile(v, bytes, nanos, interval),
    ensures
        bytes == message(profile_fields(v, names, nanos, interval)),
        names.len() == located(v.stacks).len(),
        forall|i: int|
            0 <= i < names.len() ==> names_location(located(v.stacks)[i], #[trigger] names[i]),
{
    choose|names: Seq<Seq<u8>>|
        bytes == #[trigger] message(profile_fields(v, names, nanos, interval)) && names.len()
            == located(v.stacks).len() && forall|i: int|
            0 <= i < names.len() ==> names_location(located(v.stacks)[i], #[trigger] names[i])
}

/// The name of a location is the last one found at its address, or the address itself where none
/// is found.
pub proof fn law_name_is_looked_up(ip: usize, name: Seq<u8>) -> (found: Vec<Vec<u8>>)
    requires
        names_location(ip, name),
    ensures
        symbols_found(ip, found),
        found@.len() > 0 ==> name == found@[found@.len() - 1]@,
        found@.len() == 0 ==> name == seq![48u8, 120u8] + digits(ip as nat, 16),
{
    choose|found: Vec<Vec<u8>>| #[trigger]
        symbols_found(ip, found) && name == symbol_name(ip, found@)
}

/// A string is in the table after it has been added, once; those that were there keep their places.
pub proof fn law_string_is_added_once(table: Seq<Seq<u8>>, s: Seq<u8>)
    ensures
        with_string(table, s).contains(s),
        table.contains(s) ==> with_string(table, s) == table,
        !table.contains(s) ==> with_string(table, s).len() == table.len() + 1 && with_string(
            table,
            s,
        )[table.len() as int] == s,
        forall|i: int|
            0 <= i < table.len() ==> #[trigger] with_string(table, s)[i] == table[i],
{
    if !table.contains(s) {
        assert(with_string(table, s)[table.len() as int] == s);
    }
}

/// Locations keep their numbers as traces are added.
pub proof fn law_locations_keep_their_numbers(stacks: Seq<Seq<usize>>, frames: Seq<usize>)
    ensures
        located(stacks).len() <= located(stacks.push(frames)).len(),
        forall|i: int|
            0 <= i < located(stacks).len() ==> #[trigger] located(stacks.push(frames))[i]
                == located(stacks)[i],
{
    assert(stacks.push(frames).drop_last() =~= stacks);
    lemma_frames_extend(located(stacks), frames);
}

/// Adding the frames of a trace keeps the places of the locations.
proof fn lemma_frames_extend(ips: Seq<usize>, frames: Seq<usize>)
    ensures
        ips.len() <= with_frames(ips, frames).len(),
        forall|i: int|
            0 <= i < ips.len() ==> #[trigger] with_frames(ips, frames)[i] == ips[i],
    decreases frames.len(),
{
    if frames.len() > 0 {
        lemma_frames_extend(ips, frames.drop_last());
    }
}

/// Reading a profile back gives, for every trace at which something has been allocated or is live, a
/// sample with as many locations as the trace has frames and no more, each that of the frame at the
/// same place, and each with a function whose name is that of the frame.
#[verifier::rlimit(50)]
pub proof fn law_trace_is_read_from_the_profile(
    v: ProfView,
    names: Seq<Seq<u8>>,
    nanos: u64,
    interval: u64,
    i: int,
) -> (r: (int, Seq<Field>))
    requires
        v.wf(),
        0 <= i < v.stacks.len(),
        v.counters[i].alloc_count != 0 || v.counters[i].live_count != 0,
        names.len() == located(v.stacks).len(),
        names.len() < u64::MAX,
        string_table(v.counters, names, v.classes).len() <= u64::MAX,
        forall|k: int|
            0 <= k < profile_fields(v, names, nanos, interval).len() ==> (
            #[trigger] profile_fields(v, names, nanos, interval)[k]).wf(),
    ensures
        ({
            let read = crate::wire::read_message(message(profile_fields(v, names, nanos, interval)));
            let fields = read->0;
            let frames = v.stacks[i];
            let n = frames.len() as int;
            &&& read is Some
            &&& 0 <= r.0 < fields.len()
            &&& fields[r.0] is Bytes && fields[r.0]->Bytes_number == 2
            &&& crate::wire::read_message(fields[r.0]->data) == Some(r.1)
            &&& r.1.len() >= n
            &&& forall|k: int|
                0 <= k < r.1.len() ==> (k < n <==> (#[trigger] r.1[k]) is Varint
                    && r.1[k]->Varint_number == 1)
            &&& forall|k: int|
                0 <= k < n ==> {
                    let id = (#[trigger] r.1[k])->value;
                    &&& 1 <= id <= located(v.stacks).len()
                    &&& located(v.stacks)[id - 1] == frames[k]
                    &&& fields.contains(Field::Bytes { number: 6, data: names[id - 1] })
                }
        }),
{
    let fields = profile_fields(v, names, nanos, interval);
    let table = string_table(v.counters, names, v.classes);
    let place = sample_fields(v, table, i).len() as int;
    let samples = sample_fields(v, table, v.stacks.len() as int);
    let n = v.stacks[i].len() as int;
    law_profile_can_be_read(v, names, nanos, interval);
    let f = law_sample_lists_every_frame(v, names, i);
    assert(fields[4 + place] == samples[place]);
    assert forall|k: int| 0 <= k < f.len() implies (k < n <==> (#[trigger] f[k]) is Varint
        && f[k]->Varint_number == 1) by {
        if k >= n + 4 {
            let class = v.classes[i][k - n - 4];
            assert(f[n + 4 + (k - n - 4)] is Bytes);
        }
    }
    assert forall|k: int| 0 <= k < n implies {
        let id = (#[trigger] f[k])->value;
        &&& 1 <= id <= located(v.stacks).len()
        &&& located(v.stacks)[id - 1] == v.stacks[i][k]
        &&& fields.contains(Field::Bytes { number: 6, data: names[id - 1] })
    } by {
        law_location_leads_to_its_name(v, names, nanos, interval, f[k]->value);
    }
    (4 + place, f)
}

} // verus!
