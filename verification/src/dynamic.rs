//! The dynamic segment of a memory image and the symbol counts behind it.
use crate::bytes;
use crate::bytes::rd_u32;
use crate::layout::ElfLayout;
use std::collections::HashMap;
use vstd::prelude::*;
use vstd::slice::slice_subrange;

verus! {

broadcast use vstd::std_specs::hash::group_hash_axioms;

pub const DT_NULL: i64 = 0;

pub const DT_PLTRELSZ: i64 = 2;

pub const DT_PLTGOT: i64 = 3;

pub const DT_HASH: i64 = 4;

pub const DT_STRTAB: i64 = 5;

pub const DT_SYMTAB: i64 = 6;

pub const DT_RELA: i64 = 7;

pub const DT_RELASZ: i64 = 8;

pub const DT_STRSZ: i64 = 10;

pub const DT_SYMENT: i64 = 11;

pub const DT_INIT: i64 = 12;

pub const DT_REL: i64 = 17;

pub const DT_RELSZ: i64 = 18;

pub const DT_PLTREL: i64 = 20;

pub const DT_JMPREL: i64 = 23;

pub const DT_INIT_ARRAY: i64 = 25;

pub const DT_FINI_ARRAY: i64 = 26;

pub const DT_INIT_ARRAYSZ: i64 = 27;

pub const DT_FINI_ARRAYSZ: i64 = 28;

pub const DT_RELRSZ: i64 = 35;

pub const DT_RELR: i64 = 36;

pub const DT_ANDROID_REL: i64 = 0x6000_000f;

pub const DT_ANDROID_RELSZ: i64 = 0x6000_0010;

pub const DT_ANDROID_RELA: i64 = 0x6000_0011;

pub const DT_ANDROID_RELASZ: i64 = 0x6000_0012;

pub const DT_ANDROID_RELR: i64 = 0x6fff_e000;

pub const DT_ANDROID_RELRSZ: i64 = 0x6fff_e001;

pub const DT_GNU_HASH: i64 = 0x6fff_fef5;

pub const DT_VERSYM: i64 = 0x6fff_fff0;

pub const DT_VERDEF: i64 = 0x6fff_fffc;

pub const DT_VERDEFNUM: i64 = 0x6fff_fffd;

pub const DT_VERNEED: i64 = 0x6fff_fffe;

pub const DT_VERNEEDNUM: i64 = 0x6fff_ffff;

/// `seen` extended by the dynamic entries from `off` up to `limit`, the end of
/// the image or a DT_NULL entry. A later entry replaces an earlier one that has
/// the same tag.
pub open spec fn dyn_entries(
    l: ElfLayout,
    data: Seq<u8>,
    off: int,
    limit: int,
    seen: Map<i64, u64>,
) -> Map<i64, u64>
    decreases limit - off,
{
    if off + l.dyn_size() <= data.len() && off + l.dyn_size() <= limit {
        let tag = l.d_tag_at(data, off);
        if tag == DT_NULL {
            seen
        } else {
            dyn_entries(
                l,
                data,
                off + l.dyn_size(),
                limit,
                seen.insert(tag, l.d_val_at(data, off)),
            )
        }
    } else {
        seen
    }
}

/// The dynamic table of an image whose PT_DYNAMIC segment is `[addr, addr + size)`.
pub open spec fn dyn_table(l: ElfLayout, data: Seq<u8>, addr: u64, size: u64) -> Map<i64, u64> {
    dyn_entries(l, data, addr as int, addr + size, Map::empty())
}

/// Parses the dynamic segment (singleton tags only).
pub fn read_dynamic(l: ElfLayout, data: &[u8], addr: u64, size: u64) -> (r: HashMap<i64, u64>)
    ensures
        r@ == dyn_table(l, data@, addr, size),
{
    let mut map: HashMap<i64, u64> = HashMap::new();
    let ent: u64 = l.dyn_size() as u64;
    let len: u64 = data.len() as u64;
    let mut off: u64 = addr;
    let mut left: u64 = size;
    assert(map@ =~= Map::<i64, u64>::empty());
    while off <= len && ent <= len - off && ent <= left
        invariant
            ent == l.dyn_size(),
            len == data@.len(),
            off + left == addr + size,
            dyn_entries(l, data@, off as int, addr + size, map@) == dyn_table(
                l,
                data@,
                addr,
                size,
            ),
        ensures
            map@ == dyn_table(l, data@, addr, size),
        decreases left,
    {
        assert(off <= data.len());
        let o: usize = off as usize;
        let entry = slice_subrange(data, o, data.len());
        let tag: i64 = l.d_tag(entry);
        let val: u64 = l.d_val(entry);
        assert(tag == l.d_tag_at(data@, off as int));
        assert(val == l.d_val_at(data@, off as int));
        if tag == DT_NULL {
            break ;
        }
        map.insert(tag, val);
        off = off + ent;
        left = left - ent;
    }
    map
}

/// The value of `tag` in the dynamic table.
pub open spec fn dyn_get(table: Map<i64, u64>, tag: i64) -> Option<u64> {
    if table.contains_key(tag) {
        Some(table[tag])
    } else {
        None
    }
}

/// The value of `tag` in the dynamic table, 0 when it is absent.
pub open spec fn dyn_or_zero(table: Map<i64, u64>, tag: i64) -> u64 {
    if table.contains_key(tag) {
        table[tag]
    } else {
        0
    }
}

pub fn get_tag(table: &HashMap<i64, u64>, tag: i64) -> (r: Option<u64>)
    ensures
        r == dyn_get(table@, tag),
{
    match table.get(&tag) {
        Some(v) => Some(*v),
        None => None,
    }
}

pub fn get_tag_or_zero(table: &HashMap<i64, u64>, tag: i64) -> (r: u64)
    ensures
        r == dyn_or_zero(table@, tag),
{
    match table.get(&tag) {
        Some(v) => *v,
        None => 0,
    }
}

/// The largest of the first `n` hash buckets at `off`, 0 without any.
pub open spec fn max_bucket(data: Seq<u8>, off: int, n: nat) -> u32
    decreases n,
{
    if n == 0 {
        0
    } else {
        let rest = max_bucket(data, off, (n - 1) as nat);
        let b = bytes::u32_at(data, off + (n - 1) * 4);
        if b > rest {
            b
        } else {
            rest
        }
    }
}

/// The first symbol from `sym` on that ends its hash chain: its chain word, at
/// `chain + (sym - first) * 4`, is odd or lies outside the image.
pub open spec fn chain_end(data: Seq<u8>, chain: int, first: int, sym: int) -> int
    decreases data.len() - (chain + (sym - first) * 4),
{
    let o = chain + (sym - first) * 4;
    if o + 4 > data.len() || bytes::u32_at(data, o) % 2 != 0 {
        sym
    } else {
        chain_end(data, chain, first, sym + 1)
    }
}

/// The number of dynamic symbols that the DT_GNU_HASH table at `off` implies.
pub open spec fn gnu_hash_count(l: ElfLayout, data: Seq<u8>, off: int) -> int {
    if off + 16 > data.len() {
        0
    } else {
        let nbuckets = bytes::u32_at(data, off);
        let symoffset = bytes::u32_at(data, off + 4);
        let bloom_size = bytes::u32_at(data, off + 8);
        let buckets = off + 16 + bloom_size * l.word();
        let chain = buckets + nbuckets * 4;
        if nbuckets == 0 {
            symoffset as int
        } else if chain > data.len() {
            0
        } else {
            let last = max_bucket(data, buckets, nbuckets as nat);
            if last < symoffset {
                symoffset as int
            } else {
                chain_end(data, chain, symoffset as int, last as int) + 1
            }
        }
    }
}

/// Derives the dynamic symbol count from a DT_GNU_HASH table (which has no
/// explicit count): walk the hash chain of the highest-indexed bucket until its
/// terminator bit is set. The bloom filter is word-sized; buckets and the chain
/// array are always 32-bit.
pub fn gnu_hash_sym_count(l: ElfLayout, data: &[u8], off: u64) -> (r: u64)
    ensures
        r == gnu_hash_count(l, data@, off as int),
        r <= 0x1_0000_0000 + data@.len() / 4,
{
    let len: u64 = data.len() as u64;
    if off > len || len - off < 16 {
        return 0;
    }
    assert(off <= data.len());
    let o: usize = off as usize;
    let nbuckets: u32 = rd_u32(data, o);
    let symoffset: u32 = rd_u32(data, o + 4);
    let bloom_size: u32 = rd_u32(data, o + 8);
    if nbuckets == 0 {
        return symoffset as u64;
    }
    let room: u64 = len - off - 16;
    let word: u64 = l.word();
    let bloom_bytes: u64 = if l.is64 {
        bloom_size as u64 * 8
    } else {
        bloom_size as u64 * 4
    };
    assert(bloom_bytes == bloom_size * l.word());
    let bucket_bytes: u64 = nbuckets as u64 * 4;
    if bloom_bytes + bucket_bytes > room {
        return 0;
    }
    let buckets_off: u64 = off + 16 + bloom_bytes;
    let chain_base: u64 = buckets_off + bucket_bytes;
    let mut max_sym: u32 = 0;
    let mut i: u32 = 0;
    while i < nbuckets
        invariant
            i <= nbuckets,
            chain_base == buckets_off + nbuckets * 4,
            chain_base <= len == data@.len(),
            max_sym == max_bucket(data@, buckets_off as int, i as nat),
        decreases nbuckets - i,
    {
        assert(chain_base <= data.len());
        let b: u32 = rd_u32(data, (buckets_off + i as u64 * 4) as usize);
        if b > max_sym {
            max_sym = b;
        }
        i += 1;
    }
    if max_sym < symoffset {
        return symoffset as u64;
    }
    let mut sym: u64 = max_sym as u64;
    let mut left: u64 = len - chain_base;
    let skip: u64 = (max_sym - symoffset) as u64 * 4;
    if left < skip {
        return sym + 1;
    }
    left = left - skip;
    while left >= 4
        invariant
            len == data@.len(),
            symoffset <= sym,
            left <= len,
            sym <= max_sym + (len - left) / 4,
            chain_base + (sym - symoffset) * 4 + left == len,
            chain_end(data@, chain_base as int, symoffset as int, sym as int) == chain_end(
                data@,
                chain_base as int,
                symoffset as int,
                max_sym as int,
            ),
        ensures
            symoffset <= sym,
            sym <= max_sym + len / 4,
            sym == chain_end(
                data@,
                chain_base as int,
                symoffset as int,
                max_sym as int,
            ),
        decreases left,
    {
        assert(len - left <= data.len());
        let h: u32 = rd_u32(data, (len - left) as usize);
        if h % 2 != 0 {
            break ;
        }
        sym += 1;
        left -= 4;
    }
    sym + 1
}

/// The number of symbols, from entry `i` of the table at `off` on, that lie in
/// the image and come before the first one that is not STB_LOCAL.
pub open spec fn leading_locals(
    l: ElfLayout,
    data: Seq<u8>,
    off: int,
    i: nat,
    count: nat,
) -> nat
    decreases count - i,
{
    let o = off + i * l.sym_size();
    if i < count && o + l.sym_size() <= data.len() && l.sym_info_at(data, o) / 16 == 0 {
        1 + leading_locals(l, data, off, i + 1, count)
    } else {
        0
    }
}

/// `sh_info` of a dynamic symbol table: one more than its last leading local
/// symbol, at least 1.
pub open spec fn local_syms(l: ElfLayout, data: Seq<u8>, off: int, count: nat) -> nat {
    let n = leading_locals(l, data, off, 0, count);
    if n == 0 {
        1
    } else {
        n
    }
}

/// Counts leading STB_LOCAL entries to seed .dynsym sh_info. Best-effort.
pub fn count_local_syms(l: ElfLayout, data: &[u8], off: u64, count: u64) -> (r: u64)
    ensures
        r == local_syms(l, data@, off as int, count as nat),
{
    let sym_size: u64 = l.sym_size() as u64;
    let len: u64 = data.len() as u64;
    let mut locals: u64 = 0;
    if off <= len {
        let mut left: u64 = len - off;
        while locals < count && left >= sym_size
            invariant
                sym_size == l.sym_size(),
                len == data@.len(),
                locals <= count,
                left <= len,
                off + locals * sym_size + left == len,
                locals + leading_locals(l, data@, off as int, locals as nat, count as nat)
                    == leading_locals(l, data@, off as int, 0, count as nat),
            ensures
                locals == leading_locals(l, data@, off as int, 0, count as nat),
            decreases left,
        {
            assert(len - left <= data.len());
            let o: usize = (len - left) as usize;
            let sym = slice_subrange(data, o, data.len());
            let info: u8 = l.sym_info(sym);
            assert(info == l.sym_info_at(data@, o as int));
            if info / 16 != 0 {
                break ;
            }
            assert((locals + 1) * sym_size == locals * sym_size + sym_size)
                by (nonlinear_arith);
            locals += 1;
            left -= sym_size;
        }
    }
    if locals == 0 {
        1
    } else {
        locals
    }
}

/// The number of dynamic symbols: what the SysV hash table says, or what the GNU
/// hash table implies when there is no SysV one.
pub open spec fn symbol_count(l: ElfLayout, data: Seq<u8>, table: Map<i64, u64>) -> int {
    if table.contains_key(DT_HASH) {
        let h = table[DT_HASH];
        if h + 8 <= data.len() {
            bytes::u32_at(data, h + 4) as int
        } else {
            0
        }
    } else if table.contains_key(DT_GNU_HASH) {
        gnu_hash_count(l, data, table[DT_GNU_HASH] as int)
    } else {
        0
    }
}

pub fn dynamic_symbol_count(l: ElfLayout, data: &[u8], table: &HashMap<i64, u64>) -> (r: u64)
    ensures
        r == symbol_count(l, data@, table@),
        r <= u64::MAX / 2,
{
    let len: u64 = data.len() as u64;
    assert(data@.len() == data.len());
    if let Some(h) = get_tag(table, DT_HASH) {
        if h <= len && len - h >= 8 {
            // SysV hash: nchain (at +4) == number of symbol table entries
            assert(h <= data.len());
            rd_u32(data, h as usize + 4) as u64
        } else {
            0
        }
    } else if let Some(gh) = get_tag(table, DT_GNU_HASH) {
        gnu_hash_sym_count(l, data, gh)
    } else {
        0
    }
}

/// The number of dynamic entries from `off` on, up to `limit`, the end of the
/// image or a DT_NULL entry.
pub open spec fn entry_count(l: ElfLayout, data: Seq<u8>, off: int, limit: int) -> nat
    decreases limit - off,
{
    if off + l.dyn_size() <= data.len() && off + l.dyn_size() <= limit && l.d_tag_at(data, off)
        != DT_NULL {
        1 + entry_count(l, data, off + l.dyn_size(), limit)
    } else {
        0
    }
}

/// Offset of entry `k` of the dynamic table at `off`.
pub open spec fn entry_at(l: ElfLayout, off: int, k: int) -> int {
    off + k * l.dyn_size()
}

proof fn lemma_dyn_entries(
    l: ElfLayout,
    data: Seq<u8>,
    off: int,
    limit: int,
    seen: Map<i64, u64>,
    tag: i64,
)
    ensures
        ({
            let n = entry_count(l, data, off, limit);
            let r = dyn_entries(l, data, off, limit, seen);
            &&& forall|k: int|
                0 <= k < n && #[trigger] l.d_tag_at(data, entry_at(l, off, k)) == tag && (forall|
                    m: int,
                |
                    k < m < n ==> #[trigger] l.d_tag_at(data, entry_at(l, off, m)) != tag)
                    ==> r.contains_key(tag) && r[tag] == l.d_val_at(data, entry_at(l, off, k))
            &&& (forall|k: int|
                0 <= k < n ==> #[trigger] l.d_tag_at(data, entry_at(l, off, k)) != tag) ==> (
            r.contains_key(tag) == seen.contains_key(tag) && r[tag] == seen[tag])
        }),
    decreases limit - off,
{
    let n = entry_count(l, data, off, limit);
    let r = dyn_entries(l, data, off, limit, seen);
    let ent = l.dyn_size() as int;
    if n > 0 {
        let next = off + ent;
        let more = seen.insert(l.d_tag_at(data, off), l.d_val_at(data, off));
        lemma_dyn_entries(l, data, next, limit, more, tag);
        assert(entry_at(l, off, 0) == off);
        assert forall|k: int| #[trigger] entry_at(l, next, k) == entry_at(l, off, k + 1) by {
            assert((k + 1) * ent == k * ent + ent) by (nonlinear_arith);
        }
        assert forall|k: int|
            0 <= k < n && #[trigger] l.d_tag_at(data, entry_at(l, off, k)) == tag && (forall|
                m: int,
            |
                k < m < n ==> #[trigger] l.d_tag_at(data, entry_at(l, off, m))
                    != tag) implies r.contains_key(tag) && r[tag] == l.d_val_at(
            data,
            entry_at(l, off, k),
        ) by {
            if k == 0 {
                assert forall|m: int| 0 <= m < n - 1 implies #[trigger] l.d_tag_at(
                    data,
                    entry_at(l, next, m),
                ) != tag by {
                    assert(entry_at(l, next, m) == entry_at(l, off, m + 1));
                }
            } else {
                assert(entry_at(l, next, k - 1) == entry_at(l, off, k));
                assert(l.d_tag_at(data, entry_at(l, next, k - 1)) == tag);
                assert forall|m: int| k - 1 < m < n - 1 implies #[trigger] l.d_tag_at(
                    data,
                    entry_at(l, next, m),
                ) != tag by {
                    assert(entry_at(l, next, m) == entry_at(l, off, m + 1));
                }
            }
        }
        if forall|k: int| 0 <= k < n ==> #[trigger] l.d_tag_at(data, entry_at(l, off, k)) != tag {
            assert(l.d_tag_at(data, entry_at(l, off, 0)) != tag);
            assert forall|k: int| 0 <= k < n - 1 implies #[trigger] l.d_tag_at(
                data,
                entry_at(l, next, k),
            ) != tag by {
                assert(entry_at(l, next, k) == entry_at(l, off, k + 1));
            }
        }
    }
}

/// The dynamic table holds, for each tag, the value of the last entry with that
/// tag in front of the terminator.
pub proof fn law_last_entry_wins(
    l: ElfLayout,
    data: Seq<u8>,
    addr: u64,
    size: u64,
    tag: i64,
    k: int,
)
    requires
        0 <= k < entry_count(l, data, addr as int, addr + size),
        l.d_tag_at(data, entry_at(l, addr as int, k)) == tag,
        forall|m: int|
            k < m < entry_count(l, data, addr as int, addr + size) ==> #[trigger] l.d_tag_at(
                data,
                entry_at(l, addr as int, m),
            ) != tag,
    ensures
        dyn_table(l, data, addr, size).contains_key(tag),
        dyn_table(l, data, addr, size)[tag] == l.d_val_at(data, entry_at(l, addr as int, k)),
{
    lemma_dyn_entries(l, data, addr as int, addr + size, Map::empty(), tag);
}

/// The dynamic table holds no tag that no entry in front of the terminator has.
pub proof fn law_absent_tag_stays_absent(
    l: ElfLayout,
    data: Seq<u8>,
    addr: u64,
    size: u64,
    tag: i64,
)
    requires
        forall|k: int|
            0 <= k < entry_count(l, data, addr as int, addr + size) ==> #[trigger] l.d_tag_at(
                data,
                entry_at(l, addr as int, k),
            ) != tag,
    ensures
        !dyn_table(l, data, addr, size).contains_key(tag),
{
    lemma_dyn_entries(l, data, addr as int, addr + size, Map::empty(), tag);
}

/// No hash bucket is larger than the largest one, which is one of them or 0.
pub proof fn law_max_bucket_is_largest(data: Seq<u8>, off: int, n: nat)
    ensures
        forall|k: int|
            0 <= k < n ==> #[trigger] bytes::u32_at(data, off + k * 4) <= max_bucket(
                data,
                off,
                n,
            ),
        max_bucket(data, off, n) == 0 || exists|k: int|
            0 <= k < n && #[trigger] bytes::u32_at(data, off + k * 4) == max_bucket(data, off, n),
    decreases n,
{
    if n > 0 {
        let m = (n - 1) as nat;
        law_max_bucket_is_largest(data, off, m);
        assert(bytes::u32_at(data, off + (n - 1) * 4) <= max_bucket(data, off, n));
        assert forall|k: int| 0 <= k < n implies #[trigger] bytes::u32_at(data, off + k * 4)
            <= max_bucket(data, off, n) by {
            if k == n - 1 {
                assert(off + k * 4 == off + (n - 1) * 4);
            }
        }
    }
}

/// A walk along the hash chains stops at the first word that is odd or lies
/// outside the image.
pub proof fn law_chain_end_is_first(data: Seq<u8>, chain: int, first: int, sym: int)
    ensures
        ({
            let e = chain_end(data, chain, first, sym);
            let at = |k: int| chain + (k - first) * 4;
            &&& sym <= e
            &&& at(e) + 4 > data.len() || bytes::u32_at(data, at(e)) % 2 == 1
            &&& forall|k: int|
                sym <= k < e ==> #[trigger] bytes::u32_at(data, chain + (k - first) * 4) % 2 == 0
                    && chain + (k - first) * 4 + 4 <= data.len()
        }),
    decreases data.len() - (chain + (sym - first) * 4),
{
    let o = chain + (sym - first) * 4;
    if !(o + 4 > data.len() || bytes::u32_at(data, o) % 2 != 0) {
        law_chain_end_is_first(data, chain, first, sym + 1);
    }
}

/// The leading local symbols are all local, and the one behind them is not, or
/// is none of the table.
pub proof fn law_leading_locals(l: ElfLayout, data: Seq<u8>, off: int, i: nat, count: nat)
    ensures
        ({
            let n = leading_locals(l, data, off, i, count);
            let stop = off + (i + n) * l.sym_size();
            &&& i <= count ==> i + n <= count
            &&& forall|k: int|
                i <= k < i + n ==> (#[trigger] l.sym_info_at(data, off + k * l.sym_size())) / 16
                    == 0
            &&& i + n >= count || stop + l.sym_size() > data.len() || l.sym_info_at(data, stop)
                / 16 != 0
        }),
    decreases count - i,
{
    let o = off + i * l.sym_size();
    if i < count && o + l.sym_size() <= data.len() && l.sym_info_at(data, o) / 16 == 0 {
        law_leading_locals(l, data, off, i + 1, count);
    }
}

pub proof fn lemma_symbol_count(l: ElfLayout, data: Seq<u8>, table: Map<i64, u64>)
    ensures
        symbol_count(l, data, table) >= 0,
{
    if table.contains_key(DT_GNU_HASH) {
        let off = table[DT_GNU_HASH] as int;
        let nbuckets = bytes::u32_at(data, off);
        let first = bytes::u32_at(data, off + 4) as int;
        let buckets = off + 16 + bytes::u32_at(data, off + 8) * l.word();
        let last = max_bucket(data, buckets, nbuckets as nat) as int;
        law_chain_end_is_first(data, buckets + nbuckets * 4, first, last);
    }
}

} // verus!
