//! The tables behind a dynamic segment: what is counted and looked up in a table
//! that was written out.
use crate::bytes;
use crate::dynamic;
use crate::laws::elf;
use crate::layout::ElfLayout;
use vstd::prelude::*;

verus! {

/// The bytes of 32-bit words, one after the other.
pub open spec fn words(ws: Seq<u32>) -> Seq<u8>
    decreases ws.len(),
{
    if ws.len() == 0 {
        Seq::empty()
    } else {
        words(ws.drop_last()) + bytes::le32(ws.last())
    }
}

/// The bytes of a GNU hash table: the number of buckets, the first symbol that is
/// hashed, the number of bloom words and the bloom shift, then the bloom words, the
/// buckets and the chain words.
pub open spec fn gnu_hash_table(
    first: u32,
    bloom_size: u32,
    shift: u32,
    bloom: Seq<u8>,
    buckets: Seq<u32>,
    chains: Seq<u32>,
) -> Seq<u8> {
    words(seq![buckets.len() as u32, first, bloom_size, shift]) + bloom + words(buckets) + words(
        chains,
    )
}

proof fn lemma_words(ws: Seq<u32>, i: int)
    ensures
        words(ws).len() == 4 * ws.len(),
        0 <= i < ws.len() ==> words(ws).subrange(4 * i, 4 * i + 4) == bytes::le32(ws[i]),
    decreases ws.len(),
{
    if ws.len() > 0 {
        let t = ws.drop_last();
        lemma_words(t, i);
        if i == ws.len() - 1 {
            assert(words(ws).subrange(4 * i, 4 * i + 4) =~= bytes::le32(ws[i]));
        } else if 0 <= i < t.len() {
            assert(words(ws).subrange(4 * i, 4 * i + 4) =~= words(t).subrange(4 * i, 4 * i + 4));
        }
    }
}

/// A word of a list that stands in `b` is read back.
proof fn lemma_word_is_read(b: Seq<u8>, o: int, ws: Seq<u32>, i: int)
    requires
        bytes::holds(b, o, words(ws)),
        0 <= i < ws.len(),
    ensures
        o + 4 * i + 4 <= b.len(),
        bytes::u32_at(b, o + 4 * i) == ws[i],
{
    lemma_words(ws, i);
    bytes::lemma_holds_part(b, o, words(ws), 4 * i, 4 * i + 4);
    bytes::law_le_bytes_read_back(b, o + 4 * i, 0, ws[i], 0);
}

/// Where the parts of a GNU hash table stand that was written behind `front`.
proof fn lemma_gnu_hash_parts(
    l: ElfLayout,
    front: Seq<u8>,
    first: u32,
    bloom_size: u32,
    shift: u32,
    bloom: Seq<u8>,
    buckets: Seq<u32>,
    chains: Seq<u32>,
    rest: Seq<u8>,
)
    requires
        bloom.len() == bloom_size * elf::word(l),
        buckets.len() <= u32::MAX,
    ensures
        ({
            let table = gnu_hash_table(first, bloom_size, shift, bloom, buckets, chains);
            let data = front + table + rest;
            let off = front.len() as int;
            let at = off + 16 + bloom_size * l.word();
            &&& bytes::u32_at(data, off) == buckets.len()
            &&& bytes::u32_at(data, off + 4) == first
            &&& bytes::u32_at(data, off + 8) == bloom_size
            &&& bytes::holds(data, at, words(buckets))
            &&& bytes::holds(data, at + buckets.len() * 4, words(chains))
            &&& at + buckets.len() * 4 + chains.len() * 4 + rest.len() == data.len()
            &&& words(buckets).len() == 4 * buckets.len()
            &&& words(chains).len() == 4 * chains.len()
        }),
{
    let head = seq![buckets.len() as u32, first, bloom_size, shift];
    let table = gnu_hash_table(first, bloom_size, shift, bloom, buckets, chains);
    let data = front + table + rest;
    let off = front.len() as int;
    let at = off + 16 + bloom_size * l.word();
    lemma_words(head, 0);
    lemma_words(buckets, 0);
    lemma_words(chains, 0);
    assert(bloom_size * l.word() == bloom.len());
    assert(data.subrange(off, off + 16) =~= words(head));
    lemma_word_is_read(data, off, head, 0);
    lemma_word_is_read(data, off, head, 1);
    lemma_word_is_read(data, off, head, 2);
    assert(data.subrange(at, at + words(buckets).len()) =~= words(buckets));
    let c = at + buckets.len() * 4;
    assert(data.subrange(c, c + words(chains).len()) =~= words(chains));
}

/// The largest of the buckets that stand in `b`.
proof fn lemma_highest_bucket(b: Seq<u8>, o: int, buckets: Seq<u32>, high: u32)
    requires
        bytes::holds(b, o, words(buckets)),
        buckets.contains(high),
        forall|i: int| 0 <= i < buckets.len() ==> #[trigger] buckets[i] <= high,
    ensures
        dynamic::max_bucket(b, o, buckets.len()) == high,
{
    let n = buckets.len();
    dynamic::law_max_bucket_is_largest(b, o, n);
    let m = dynamic::max_bucket(b, o, n);
    let i = choose|i: int| 0 <= i < buckets.len() && buckets[i] == high;
    lemma_word_is_read(b, o, buckets, i);
    assert(bytes::u32_at(b, o + i * 4) == high);
    if m != 0 {
        let k = choose|k: int| 0 <= k < n && #[trigger] bytes::u32_at(b, o + k * 4) == m;
        lemma_word_is_read(b, o, buckets, k);
        assert(buckets[k] <= high);
    }
}

/// A GNU hash table that was written tells how many symbols there are: the chain
/// of its highest bucket ends with the last of them. That holds for bloom filters
/// of any size, wherever the table stands and whatever follows it.
pub proof fn law_gnu_hash_counts_symbols(
    l: ElfLayout,
    front: Seq<u8>,
    first: u32,
    bloom_size: u32,
    shift: u32,
    bloom: Seq<u8>,
    buckets: Seq<u32>,
    chains: Seq<u32>,
    rest: Seq<u8>,
    high: u32,
    n: int,
)
    requires
        bloom.len() == bloom_size * elf::word(l),
        buckets.len() <= u32::MAX,
        buckets.contains(high),
        forall|i: int| 0 <= i < buckets.len() ==> #[trigger] buckets[i] <= high,
        first <= high < n <= first + chains.len(),
        forall|s: int|
            high <= s < n - 1 ==> (#[trigger] chains[s - first]) % 2 == 0,
        chains[n - 1 - first] % 2 == 1,
    ensures
        dynamic::gnu_hash_count(
            l,
            front + gnu_hash_table(first, bloom_size, shift, bloom, buckets, chains) + rest,
            front.len() as int,
        ) == n,
{
    let data = front + gnu_hash_table(first, bloom_size, shift, bloom, buckets, chains) + rest;
    let at = front.len() + 16 + bloom_size * l.word();
    let chain = at + buckets.len() * 4;
    lemma_gnu_hash_parts(l, front, first, bloom_size, shift, bloom, buckets, chains, rest);
    lemma_highest_bucket(data, at, buckets, high);
    dynamic::law_chain_end_is_first(data, chain, first as int, high as int);
    let e = dynamic::chain_end(data, chain, first as int, high as int);
    assert forall|s: int| high <= s < n implies bytes::u32_at(data, chain + (s - first) * 4)
        == #[trigger] chains[s - first] && chain + (s - first) * 4 + 4 <= data.len() by {
        lemma_word_is_read(data, chain, chains, s - first);
    }
    assert(bytes::u32_at(data, chain + (n - 1 - first) * 4) == chains[n - 1 - first]);
    if e < n - 1 {
        assert(chains[e - first] % 2 == 0);
    }
    assert(e == n - 1);
}

/// A GNU hash table none of whose buckets leads to a chain tells of no symbols but
/// those in front of the first that is hashed. A bucket without a chain holds a
/// number below that symbol's.
pub proof fn law_gnu_hash_without_chains(
    l: ElfLayout,
    front: Seq<u8>,
    first: u32,
    bloom_size: u32,
    shift: u32,
    bloom: Seq<u8>,
    buckets: Seq<u32>,
    chains: Seq<u32>,
    rest: Seq<u8>,
)
    requires
        bloom.len() == bloom_size * elf::word(l),
        buckets.len() <= u32::MAX,
        forall|i: int| 0 <= i < buckets.len() ==> #[trigger] buckets[i] < first,
    ensures
        dynamic::gnu_hash_count(
            l,
            front + gnu_hash_table(first, bloom_size, shift, bloom, buckets, chains) + rest,
            front.len() as int,
        ) == first,
{
    let data = front + gnu_hash_table(first, bloom_size, shift, bloom, buckets, chains) + rest;
    let at = front.len() + 16 + bloom_size * l.word();
    lemma_gnu_hash_parts(l, front, first, bloom_size, shift, bloom, buckets, chains, rest);
    let n = buckets.len();
    dynamic::law_max_bucket_is_largest(data, at, n);
    let m = dynamic::max_bucket(data, at, n);
    if n > 0 {
        if m != 0 {
            let k = choose|k: int| 0 <= k < n && #[trigger] bytes::u32_at(data, at + k * 4) == m;
            lemma_word_is_read(data, at, buckets, k);
            assert(buckets[k] < first);
        } else {
            assert(buckets[0] < first);
        }
    }
}

/// A GNU hash table whose highest chain runs to the end of the image without a
/// terminator counts one symbol more than it has chain words for.
pub proof fn law_gnu_hash_stops_at_the_end(
    l: ElfLayout,
    front: Seq<u8>,
    first: u32,
    bloom_size: u32,
    shift: u32,
    bloom: Seq<u8>,
    buckets: Seq<u32>,
    chains: Seq<u32>,
    rest: Seq<u8>,
    high: u32,
)
    requires
        bloom.len() == bloom_size * elf::word(l),
        buckets.len() <= u32::MAX,
        buckets.contains(high),
        forall|i: int| 0 <= i < buckets.len() ==> #[trigger] buckets[i] <= high,
        first <= high <= first + chains.len(),
        forall|k: int| high - first <= k < chains.len() ==> (#[trigger] chains[k]) % 2 == 0,
        rest.len() < 4,
    ensures
        dynamic::gnu_hash_count(
            l,
            front + gnu_hash_table(first, bloom_size, shift, bloom, buckets, chains) + rest,
            front.len() as int,
        ) == first + chains.len() + 1,
{
    let data = front + gnu_hash_table(first, bloom_size, shift, bloom, buckets, chains) + rest;
    let at = front.len() + 16 + bloom_size * l.word();
    let chain = at + buckets.len() * 4;
    lemma_gnu_hash_parts(l, front, first, bloom_size, shift, bloom, buckets, chains, rest);
    lemma_highest_bucket(data, at, buckets, high);
    dynamic::law_chain_end_is_first(data, chain, first as int, high as int);
    let e = dynamic::chain_end(data, chain, first as int, high as int);
    if e < first + chains.len() {
        lemma_word_is_read(data, chain, chains, e - first);
        assert(chains[e - first] % 2 == 0);
    }
    if e > first + chains.len() {
        let k = first + chains.len();
        assert(bytes::u32_at(data, chain + (k - first) * 4) % 2 == 0);
    }
    assert(e == first + chains.len());
}

/// A GNU hash table of which not even the buckets lie inside the image counts no
/// symbols.
pub proof fn law_gnu_hash_outside_the_image(l: ElfLayout, data: Seq<u8>, off: int)
    requires
        0 <= off,
    ensures
        off + 16 > data.len() ==> dynamic::gnu_hash_count(l, data, off) == 0,
        off + 16 <= data.len() && elf::at(data, off, 4) > 0 && off + 16 + elf::at(data, off + 8, 4)
            * elf::word(l) + elf::at(data, off, 4) * 4 > data.len() ==> dynamic::gnu_hash_count(
            l,
            data,
            off,
        ) == 0,
{
    elf::law_integers_are_little_endian(data, off);
    elf::law_integers_are_little_endian(data, off + 8);
}

/// The number of dynamic symbols is the chain count of the SysV hash table; without
/// such a table it is what the GNU hash table tells, and without either it is 0.
pub proof fn law_symbols_are_counted_by_hash(l: ElfLayout, data: Seq<u8>, table: Map<i64, u64>)
    ensures
        ({
            let sysv = table.contains_key(4);
            let gnu = table.contains_key(0x6fff_fef5);
            let n = dynamic::symbol_count(l, data, table);
            &&& sysv && table[4] + 8 <= data.len() ==> n == elf::at(data, table[4] + 4, 4)
            &&& sysv && table[4] + 8 > data.len() ==> n == 0
            &&& !sysv && gnu ==> n == dynamic::gnu_hash_count(
                l,
                data,
                table[0x6fff_fef5] as int,
            )
            &&& !sysv && !gnu ==> n == 0
        }),
{
    if table.contains_key(4) {
        elf::law_integers_are_little_endian(data, table[4] + 4);
    }
}

/// Whether entry `i` of the dynamic table at `addr` has this tag and value.
pub open spec fn is_entry(
    l: ElfLayout,
    data: Seq<u8>,
    addr: int,
    i: int,
    tag: i64,
    value: u64,
) -> bool {
    let n = elf::word(l);
    let o = addr + i * (2 * n);
    elf::signed(elf::at(data, o, n), n) == tag && elf::at(data, o + n, n) == value
}

/// The last entry with a tag among the first `n`.
spec fn collected(entries: Seq<(i64, u64)>, n: nat) -> Map<i64, u64>
    decreases n,
{
    if n == 0 {
        Map::empty()
    } else {
        collected(entries, (n - 1) as nat).insert(entries[n - 1].0, entries[n - 1].1)
    }
}

proof fn lemma_collected(entries: Seq<(i64, u64)>, n: nat, tag: i64)
    requires
        n <= entries.len(),
    ensures
        forall|k: int|
            0 <= k < n && (#[trigger] entries[k]).0 == tag && (forall|m: int|
                k < m < n ==> (#[trigger] entries[m]).0 != tag) ==> collected(
                entries,
                n,
            ).contains_key(tag) && collected(entries, n)[tag] == entries[k].1,
        (forall|k: int| 0 <= k < n ==> (#[trigger] entries[k]).0 != tag) ==> !collected(
            entries,
            n,
        ).contains_key(tag),
    decreases n,
{
    if n > 0 {
        lemma_collected(entries, (n - 1) as nat, tag);
        assert(entries[n - 1].0 == entries[n - 1].0);
    }
}

proof fn lemma_entries_are_collected(
    l: ElfLayout,
    data: Seq<u8>,
    addr: u64,
    limit: int,
    entries: Seq<(i64, u64)>,
    i: nat,
)
    requires
        i <= entries.len(),
        addr + entries.len() * (2 * elf::word(l)) <= limit,
        addr + entries.len() * (2 * elf::word(l)) <= data.len(),
        forall|k: int|
            0 <= k < entries.len() ==> #[trigger] is_entry(
                l,
                data,
                addr as int,
                k,
                entries[k].0,
                entries[k].1,
            ) && entries[k].0 != 0,
        ({
            let e = addr + entries.len() * (2 * elf::word(l));
            ||| e + 2 * elf::word(l) > limit
            ||| e + 2 * elf::word(l) > data.len()
            ||| elf::at(data, e, elf::word(l)) == 0
        }),
    ensures
        dynamic::dyn_entries(
            l,
            data,
            addr + i * (2 * elf::word(l)),
            limit,
            collected(entries, i),
        ) == collected(entries, entries.len()),
    decreases entries.len() - i,
{
    let n = elf::word(l);
    let size = 2 * n;
    let o = addr + i * size;
    assert(0 <= i * size) by (nonlinear_arith)
        requires
            0 <= i,
            0 <= size,
    ;
    if i < entries.len() {
        assert((i + 1) * size == i * size + size && (i + 1) * size <= entries.len() * size)
            by (nonlinear_arith)
            requires
                i + 1 <= entries.len(),
                0 <= size,
        ;
        assert(is_entry(l, data, addr as int, i as int, entries[i as int].0, entries[i as int].1));
        elf::law_dynamic_entry_is_read(l, data, o);
        lemma_entries_are_collected(l, data, addr, limit, entries, i + 1);
    } else if o + size <= limit && o + size <= data.len() {
        elf::law_dynamic_entry_is_read(l, data, o);
    }
}

/// A dynamic table that was written is read back: a tag stands for the value of its
/// last entry, and a tag that no entry has stands for nothing. The table ends with
/// an entry of tag 0, with its segment, or with the image.
pub proof fn law_dynamic_table_reads_back(
    l: ElfLayout,
    data: Seq<u8>,
    addr: u64,
    size: u64,
    entries: Seq<(i64, u64)>,
    tag: i64,
)
    requires
        addr + entries.len() * (2 * elf::word(l)) <= addr + size,
        addr + entries.len() * (2 * elf::word(l)) <= data.len(),
        forall|k: int|
            0 <= k < entries.len() ==> #[trigger] is_entry(
                l,
                data,
                addr as int,
                k,
                entries[k].0,
                entries[k].1,
            ) && entries[k].0 != 0,
        ({
            let e = addr + entries.len() * (2 * elf::word(l));
            ||| e + 2 * elf::word(l) > addr + size
            ||| e + 2 * elf::word(l) > data.len()
            ||| elf::at(data, e, elf::word(l)) == 0
        }),
    ensures
        ({
            let table = dynamic::dyn_table(l, data, addr, size);
            &&& forall|k: int|
                0 <= k < entries.len() && (#[trigger] entries[k]).0 == tag && (forall|m: int|
                    k < m < entries.len() ==> (#[trigger] entries[m]).0 != tag)
                    ==> table.contains_key(tag) && table[tag] == entries[k].1
            &&& (forall|k: int| 0 <= k < entries.len() ==> (#[trigger] entries[k]).0 != tag)
                ==> !table.contains_key(tag)
        }),
{
    lemma_entries_are_collected(l, data, addr, addr + size, entries, 0);
    lemma_collected(entries, entries.len(), tag);
}

/// The leading local symbols of a table are those in front of the first one that
/// binds otherwise, or that the image does not hold; at least 1 is told.
pub proof fn law_local_symbols_lead(l: ElfLayout, data: Seq<u8>, off: int, count: nat, n: nat)
    requires
        0 <= off,
        n <= count,
        off + n * elf::by_class(l, 24, 16) <= data.len(),
        forall|k: int|
            0 <= k < n ==> #[trigger] data[off + k * elf::by_class(l, 24, 16) + elf::by_class(
                l,
                4,
                12,
            )] < 0x10,
        ({
            let o = off + n * elf::by_class(l, 24, 16);
            ||| n == count
            ||| o + elf::by_class(l, 24, 16) > data.len()
            ||| data[o + elf::by_class(l, 4, 12)] >= 0x10
        }),
    ensures
        dynamic::local_syms(l, data, off, count) == if n == 0 {
            1
        } else {
            n
        },
{
    lemma_leading_locals(l, data, off, count, n, 0);
}

proof fn lemma_leading_locals(
    l: ElfLayout,
    data: Seq<u8>,
    off: int,
    count: nat,
    n: nat,
    i: nat,
)
    requires
        i <= n <= count,
        off + n * elf::by_class(l, 24, 16) <= data.len(),
        forall|k: int|
            0 <= k < n ==> #[trigger] data[off + k * elf::by_class(l, 24, 16) + elf::by_class(
                l,
                4,
                12,
            )] < 0x10,
        ({
            let o = off + n * elf::by_class(l, 24, 16);
            ||| n == count
            ||| o + elf::by_class(l, 24, 16) > data.len()
            ||| data[o + elf::by_class(l, 4, 12)] >= 0x10
        }),
    ensures
        dynamic::leading_locals(l, data, off, i, count) == n - i,
    decreases n - i,
{
    let size = elf::by_class(l, 24, 16);
    if i < n {
        assert((i + 1) * size == i * size + size && (i + 1) * size <= n * size)
            by (nonlinear_arith)
            requires
                i + 1 <= n,
                0 <= size,
        ;
        assert(data[off + i * size + elf::by_class(l, 4, 12)] < 0x10);
        lemma_leading_locals(l, data, off, count, n, i + 1);
    }
}

} // verus!
