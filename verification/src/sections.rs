//! Section descriptions: their order, their sizes and lookups in them.
use vstd::prelude::*;

verus! {

pub const SHT_PROGBITS: u32 = 1;

pub const SHT_SYMTAB: u32 = 2;

pub const SHT_STRTAB: u32 = 3;

pub const SHT_RELA: u32 = 4;

pub const SHT_HASH: u32 = 5;

pub const SHT_DYNAMIC: u32 = 6;

pub const SHT_NOBITS: u32 = 8;

pub const SHT_REL: u32 = 9;

pub const SHT_DYNSYM: u32 = 11;

pub const SHT_INIT_ARRAY: u32 = 14;

pub const SHT_FINI_ARRAY: u32 = 15;

pub const SHT_RELR: u32 = 19;

pub const SHT_ANDROID_REL: u32 = 0x6000_0001;

pub const SHT_ANDROID_RELA: u32 = 0x6000_0002;

pub const SHT_ANDROID_RELR: u32 = 0x6fff_ff00;

pub const SHT_GNU_HASH: u32 = 0x6fff_fff6;

pub const SHT_GNU_VERDEF: u32 = 0x6fff_fffd;

pub const SHT_GNU_VERNEED: u32 = 0x6fff_fffe;

pub const SHT_GNU_VERSYM: u32 = 0x6fff_ffff;

pub const SHF_WRITE: u64 = 0x1;

pub const SHF_ALLOC: u64 = 0x2;

pub const SHF_EXEC: u64 = 0x4;

pub const SHF_INFO_LINK: u64 = 0x40;

/// A section header in the making, with link and info kept as names until the
/// final index assignment.
#[verifier::ext_equal]
pub struct Section {
    pub name: Seq<char>,
    pub typ: u32,
    pub flags: u64,
    pub addr: u64,
    pub size: u64,
    /// True if size is known precisely.
    pub has_size: bool,
    pub link_name: Seq<char>,
    pub info_name: Seq<char>,
    pub info: u32,
    pub entsize: u64,
    pub align: u64,
    /// Payload of a non-alloc section that is appended to the file.
    pub file_data: Option<Seq<u8>>,
}

/// A section without size, links or entries.
pub open spec fn plain_section(
    name: Seq<char>,
    typ: u32,
    flags: u64,
    addr: u64,
    align: u64,
) -> Section {
    Section {
        name,
        typ,
        flags,
        addr,
        size: 0,
        has_size: false,
        link_name: Seq::empty(),
        info_name: Seq::empty(),
        info: 0,
        entsize: 0,
        align,
        file_data: None,
    }
}

/// The NULL section that every table starts with.
pub open spec fn null_section() -> Section {
    plain_section(Seq::empty(), 0, 0, 0, 0)
}

/// `s` with a precise size, unless `size` is 0.
pub open spec fn with_size(s: Section, size: u64) -> Section {
    if size > 0 {
        Section { size, has_size: true, ..s }
    } else {
        s
    }
}

/// The executable counterpart of [`Section`].
pub struct SecDesc {
    pub name: String,
    pub typ: u32,
    pub flags: u64,
    pub addr: u64,
    pub size: u64,
    pub has_size: bool,
    pub link_name: String,
    pub info_name: String,
    pub info: u32,
    pub entsize: u64,
    pub align: u64,
    pub file_data: Option<Vec<u8>>,
}

/// The bytes of an optional payload.
pub open spec fn payload_view(p: Option<Vec<u8>>) -> Option<Seq<u8>> {
    match p {
        Some(v) => Some(v@),
        None => None,
    }
}

impl View for SecDesc {
    type V = Section;

    open spec fn view(&self) -> Section {
        Section {
            name: self.name@,
            typ: self.typ,
            flags: self.flags,
            addr: self.addr,
            size: self.size,
            has_size: self.has_size,
            link_name: self.link_name@,
            info_name: self.info_name@,
            info: self.info,
            entsize: self.entsize,
            align: self.align,
            file_data: payload_view(self.file_data),
        }
    }
}

/// The sections that a vector of descriptions stands for.
pub open spec fn section_views(secs: Seq<SecDesc>) -> Seq<Section> {
    Seq::new(secs.len(), |i: int| secs[i]@)
}

impl SecDesc {
    pub fn new(name: &str, typ: u32, flags: u64, addr: u64, align: u64) -> (r: SecDesc)
        ensures
            r@ == plain_section(name@, typ, flags, addr, align),
    {
        SecDesc {
            name: name.to_string(),
            typ,
            flags,
            addr,
            size: 0,
            has_size: false,
            link_name: String::new(),
            info_name: String::new(),
            info: 0,
            entsize: 0,
            align,
            file_data: None,
        }
    }

    /// Sets a precise size, unless `size` is 0.
    pub fn sized(&mut self, size: u64)
        ensures
            final(self)@ == with_size(old(self)@, size),
    {
        if size > 0 {
            self.size = size;
            self.has_size = true;
        }
    }
}

/// `x` put in front of the first section of `s` whose address is not lower.
pub open spec fn insert_by_addr(s: Seq<Section>, x: Section) -> Seq<Section>
    decreases s.len(),
{
    if s.len() == 0 || s[0].addr >= x.addr {
        seq![x] + s
    } else {
        seq![s[0]] + insert_by_addr(s.drop_first(), x)
    }
}

/// The sections of `s` by ascending address; equal addresses keep their order.
pub open spec fn sort_by_addr(s: Seq<Section>) -> Seq<Section>
    decreases s.len(),
{
    if s.len() == 0 {
        s
    } else {
        insert_by_addr(sort_by_addr(s.drop_first()), s[0])
    }
}

/// Inserting at the first position whose address is not lower.
proof fn lemma_insert_at(s: Seq<Section>, x: Section, k: int)
    requires
        0 <= k <= s.len(),
        forall|i: int| 0 <= i < k ==> (#[trigger] s[i]).addr < x.addr,
        k < s.len() ==> s[k].addr >= x.addr,
    ensures
        insert_by_addr(s, x) == s.insert(k, x),
    decreases s.len(),
{
    if k == 0 {
        assert(seq![x] + s =~= s.insert(0, x));
    } else {
        let t = s.drop_first();
        assert forall|i: int| 0 <= i < k - 1 implies (#[trigger] t[i]).addr < x.addr by {
            assert(t[i] == s[i + 1]);
        }
        lemma_insert_at(t, x, k - 1);
        assert(s[0].addr < x.addr);
        assert(seq![s[0]] + t.insert(k - 1, x) =~= s.insert(k, x));
    }
}

/// Sorts sections by address; the sort is stable.
pub fn sort_sections(secs: Vec<SecDesc>) -> (r: Vec<SecDesc>)
    ensures
        section_views(r@) == sort_by_addr(section_views(secs@)),
{
    let ghost all = section_views(secs@);
    let mut secs = secs;
    let mut r: Vec<SecDesc> = Vec::new();
    assert(section_views(r@) =~= sort_by_addr(all.skip(all.len() as int)));
    while secs.len() > 0
        invariant
            secs.len() <= all.len(),
            section_views(secs@) == all.take(secs.len() as int),
            section_views(r@) == sort_by_addr(all.skip(secs.len() as int)),
        decreases secs.len(),
    {
        let ghost n = secs.len() as int;
        assert(section_views(secs@)[n - 1] == all[n - 1]);
        let d: SecDesc = match secs.pop() {
            Some(d) => d,
            None => {
                return r;
            },
        };
        assert(section_views(secs@) =~= all.take(n - 1));
        let mut k: usize = 0;
        while k < r.len() && r[k].addr < d.addr
            invariant
                k <= r.len(),
                forall|i: int| 0 <= i < k ==> (#[trigger] r@[i]).addr < d.addr,
            decreases r.len() - k,
        {
            k += 1;
        }
        let ghost before = section_views(r@);
        r.insert(k, d);
        proof {
            assert forall|i: int| 0 <= i < k implies (#[trigger] before[i]).addr < d.addr by {}
            lemma_insert_at(before, d@, k as int);
            assert(section_views(r@) =~= before.insert(k as int, d@));
            assert(all.skip(n - 1).drop_first() =~= all.skip(n));
            assert(all.skip(n - 1)[0] == d@);
        }
    }
    assert(all.skip(0) =~= all);
    r
}

/// Where the section that follows `body[i]` starts: the next section, or for the
/// last one the end of the mapped span (NOBITS) or of its file-backed part.
pub open spec fn next_start(
    body: Seq<Section>,
    i: int,
    load_file_end: u64,
    max_vaddr: u64,
) -> u64 {
    if i + 1 < body.len() {
        body[i + 1].addr
    } else if body[i].typ == SHT_NOBITS {
        max_vaddr
    } else {
        load_file_end
    }
}

/// `body[i]` sized by its neighbor: a section without a precise size grows to
/// the next start, and a precise size is cut where it would overlap it. Sections
/// that do not start below the next start keep their size.
pub open spec fn resized(
    body: Seq<Section>,
    i: int,
    load_file_end: u64,
    max_vaddr: u64,
) -> Section {
    let next = next_start(body, i, load_file_end, max_vaddr);
    let gap = next - body[i].addr;
    if gap > 0 && (!body[i].has_size || body[i].size > gap) {
        Section { size: gap as u64, ..body[i] }
    } else {
        body[i]
    }
}

pub open spec fn resize_all(
    body: Seq<Section>,
    load_file_end: u64,
    max_vaddr: u64,
) -> Seq<Section> {
    Seq::new(body.len(), |i: int| resized(body, i, load_file_end, max_vaddr))
}

/// Neighbor-based size pass over sections in address order.
pub fn resize_sections(body: &mut Vec<SecDesc>, load_file_end: u64, max_vaddr: u64)
    ensures
        section_views(final(body)@) == resize_all(
            section_views(old(body)@),
            load_file_end,
            max_vaddr,
        ),
{
    let ghost all = section_views(body@);
    let mut i: usize = 0;
    while i < body.len()
        invariant
            i <= body.len(),
            body.len() == all.len(),
            forall|k: int|
                0 <= k < i ==> (#[trigger] body@[k])@ == resized(
                    all,
                    k,
                    load_file_end,
                    max_vaddr,
                ),
            forall|k: int| i <= k < body.len() ==> (#[trigger] body@[k])@ == all[k],
        decreases body.len() - i,
    {
        let next: u64 = if i + 1 < body.len() {
            body[i + 1].addr
        } else if body[i].typ == SHT_NOBITS {
            max_vaddr
        } else {
            load_file_end
        };
        let addr: u64 = body[i].addr;
        assert(i + 1 < all.len() ==> body@[i + 1]@ == all[i + 1]);
        assert(body@[i as int]@ == all[i as int]);
        if next > addr {
            let gap: u64 = next - addr;
            // Unsized sections grow to the gap; precise sizes are clamped if
            // they'd overlap the next section.
            if !body[i].has_size || body[i].size > gap {
                body[i].size = gap;
            }
        }
        assert(body@[i as int]@ == resized(all, i as int, load_file_end, max_vaddr));
        i += 1;
    }
    assert(section_views(body@) =~= resize_all(all, load_file_end, max_vaddr));
}

/// Whether `s` is an allocated section whose address range contains `value`.
pub open spec fn covers(s: Section, value: u64) -> bool {
    s.flags & SHF_ALLOC != 0 && s.addr <= value < s.addr + s.size
}

/// The first section from `from` on that covers `value`.
pub open spec fn covering(value: u64, secs: Seq<Section>, from: int) -> Option<int>
    decreases secs.len() - from,
{
    if from >= secs.len() {
        None
    } else if covers(secs[from], value) {
        Some(from)
    } else {
        covering(value, secs, from + 1)
    }
}

/// Position of the first section that covers `value`.
pub fn find_covering(value: u64, secs: &Vec<SecDesc>) -> (r: Option<usize>)
    ensures
        match r {
            Some(i) => i < secs.len() && covering(value, section_views(secs@), 0) == Some(
                i as int,
            ),
            None => covering(value, section_views(secs@), 0) is None,
        },
{
    let mut i: usize = 0;
    while i < secs.len()
        invariant
            i <= secs.len(),
            covering(value, section_views(secs@), i as int) == covering(
                value,
                section_views(secs@),
                0,
            ),
        decreases secs.len() - i,
    {
        let s = &secs[i];
        assert(section_views(secs@)[i as int] == s@);
        if s.flags & SHF_ALLOC != 0 && s.size != 0 && value >= s.addr && value - s.addr < s.size {
            return Some(i);
        }
        i += 1;
    }
    None
}

/// Index of the allocatable section whose address range contains `value`, or 0
/// (SHN_UNDEF) if none does.
pub open spec fn covering_index(value: u64, secs: Seq<Section>) -> u16 {
    match covering(value, secs, 0) {
        Some(i) => i as u16,
        None => 0,
    }
}

pub fn section_index_of(value: u64, secs: &Vec<SecDesc>) -> (r: u16)
    ensures
        r == covering_index(value, section_views(secs@)),
{
    match find_covering(value, secs) {
        Some(i) => i as u16,
        None => 0,
    }
}

/// Whether sections lie in ascending address order.
pub open spec fn is_ordered(s: Seq<Section>) -> bool {
    forall|i: int, j: int|
        0 <= i <= j < s.len() ==> (#[trigger] s[i]).addr <= (#[trigger] s[j]).addr
}

/// The sections of `s` at address `a`, in order.
pub open spec fn at_addr(s: Seq<Section>, a: u64) -> Seq<Section>
    decreases s.len(),
{
    if s.len() == 0 {
        Seq::empty()
    } else if s[0].addr == a {
        seq![s[0]] + at_addr(s.drop_first(), a)
    } else {
        at_addr(s.drop_first(), a)
    }
}

proof fn lemma_insert_keeps_order(s: Seq<Section>, x: Section)
    requires
        is_ordered(s),
    ensures
        is_ordered(insert_by_addr(s, x)),
        insert_by_addr(s, x).len() == s.len() + 1,
        insert_by_addr(s, x)[0] == x || (s.len() > 0 && s[0].addr < x.addr && insert_by_addr(
            s,
            x,
        )[0] == s[0]),
    decreases s.len(),
{
    if s.len() > 0 && s[0].addr < x.addr {
        let t = s.drop_first();
        assert forall|i: int, j: int| 0 <= i <= j < t.len() implies (#[trigger] t[i]).addr <= (
        #[trigger] t[j]).addr by {
            assert(t[i] == s[i + 1] && t[j] == s[j + 1]);
        }
        lemma_insert_keeps_order(t, x);
        let u = insert_by_addr(t, x);
        let r = insert_by_addr(s, x);
        assert(r =~= seq![s[0]] + u);
        assert(t.len() > 0 ==> t[0] == s[1]);
        assert forall|i: int, j: int| 0 <= i <= j < r.len() implies (#[trigger] r[i]).addr <= (
        #[trigger] r[j]).addr by {
            if i > 0 {
                assert(r[i] == u[i - 1] && r[j] == u[j - 1]);
            } else if j > 0 {
                assert(r[j] == u[j - 1]);
                assert(u[0].addr <= u[j - 1].addr);
            }
        }
    } else {
        let r = seq![x] + s;
        assert forall|i: int, j: int| 0 <= i <= j < r.len() implies (#[trigger] r[i]).addr <= (
        #[trigger] r[j]).addr by {
            if i > 0 {
                assert(r[i] == s[i - 1] && r[j] == s[j - 1]);
            } else if j > 0 {
                assert(r[j] == s[j - 1]);
                assert(s[0].addr <= s[j - 1].addr);
            }
        }
    }
}

proof fn lemma_insert_at_addr(s: Seq<Section>, x: Section, a: u64)
    ensures
        at_addr(insert_by_addr(s, x), a) == if x.addr == a {
            seq![x] + at_addr(s, a)
        } else {
            at_addr(s, a)
        },
    decreases s.len(),
{
    if s.len() == 0 || s[0].addr >= x.addr {
        assert((seq![x] + s).drop_first() =~= s);
    } else {
        let t = s.drop_first();
        lemma_insert_at_addr(t, x, a);
        let u = insert_by_addr(t, x);
        assert((seq![s[0]] + u).drop_first() =~= u);
    }
}

/// Sorting puts sections in ascending address order, as many as there were.
pub proof fn law_sort_orders_by_address(s: Seq<Section>)
    ensures
        is_ordered(sort_by_addr(s)),
        sort_by_addr(s).len() == s.len(),
    decreases s.len(),
{
    if s.len() > 0 {
        law_sort_orders_by_address(s.drop_first());
        lemma_insert_keeps_order(sort_by_addr(s.drop_first()), s[0]);
    }
}

/// Sorting is stable: at every address the same sections stand in the same order
/// as before.
pub proof fn law_sort_is_stable(s: Seq<Section>, a: u64)
    ensures
        at_addr(sort_by_addr(s), a) == at_addr(s, a),
    decreases s.len(),
{
    if s.len() > 0 {
        law_sort_is_stable(s.drop_first(), a);
        lemma_insert_at_addr(sort_by_addr(s.drop_first()), s[0], a);
    }
}

proof fn lemma_insert_members(s: Seq<Section>, x: Section, y: Section)
    ensures
        insert_by_addr(s, x).contains(y) <==> (y == x || s.contains(y)),
    decreases s.len(),
{
    let head = if s.len() == 0 || s[0].addr >= x.addr {
        x
    } else {
        s[0]
    };
    let tail = if s.len() == 0 || s[0].addr >= x.addr {
        s
    } else {
        insert_by_addr(s.drop_first(), x)
    };
    let all = seq![head] + tail;
    assert(all == insert_by_addr(s, x));
    lemma_front_members(head, tail, y);
    if s.len() > 0 && s[0].addr < x.addr {
        lemma_insert_members(s.drop_first(), x, y);
        lemma_front_members(s[0], s.drop_first(), y);
        assert(seq![s[0]] + s.drop_first() =~= s);
    }
}

proof fn lemma_front_members(head: Section, tail: Seq<Section>, y: Section)
    ensures
        (seq![head] + tail).contains(y) <==> (y == head || tail.contains(y)),
{
    let all = seq![head] + tail;
    if all.contains(y) && y != head {
        let i = choose|i: int| 0 <= i < all.len() && all[i] == y;
        assert(tail[i - 1] == y);
    }
    if tail.contains(y) {
        let i = choose|i: int| 0 <= i < tail.len() && tail[i] == y;
        assert(all[i + 1] == y);
    }
    assert(all[0] == head);
}

/// Sorting keeps the sections that it is given, and makes up none.
pub proof fn law_sort_keeps_sections(s: Seq<Section>, y: Section)
    ensures
        sort_by_addr(s).contains(y) <==> s.contains(y),
    decreases s.len(),
{
    if s.len() > 0 {
        law_sort_keeps_sections(s.drop_first(), y);
        lemma_insert_members(sort_by_addr(s.drop_first()), s[0], y);
        lemma_front_members(s[0], s.drop_first(), y);
        assert(seq![s[0]] + s.drop_first() =~= s);
    }
}

/// The size pass changes nothing but sizes. A section that starts below the next
/// start does not reach beyond that start afterwards; without a precise size it
/// reaches exactly there, and with a precise size that fits it keeps that size.
pub proof fn law_sizes_do_not_overlap(
    body: Seq<Section>,
    load_file_end: u64,
    max_vaddr: u64,
    i: int,
)
    requires
        0 <= i < body.len(),
    ensures
        ({
            let r = resize_all(body, load_file_end, max_vaddr)[i];
            let next = next_start(body, i, load_file_end, max_vaddr);
            &&& r == (Section { size: r.size, ..body[i] })
            &&& body[i].addr < next ==> r.addr + r.size <= next
            &&& body[i].addr < next && !body[i].has_size ==> r.addr + r.size == next
            &&& body[i].has_size && body[i].addr + body[i].size <= next ==> r.size == body[i].size
            &&& r.size <= body[i].size || !body[i].has_size
        }),
{
}

/// A lookup finds the first allocated section around a value, if there is one.
pub proof fn law_covering_is_first(value: u64, secs: Seq<Section>, from: int)
    requires
        0 <= from,
    ensures
        match covering(value, secs, from) {
            Some(i) => {
                &&& from <= i < secs.len()
                &&& covers(secs[i], value)
                &&& forall|j: int| from <= j < i ==> !covers(#[trigger] secs[j], value)
            },
            None => forall|j: int| from <= j < secs.len() ==> !covers(#[trigger] secs[j], value),
        },
    decreases secs.len() - from,
{
    if from < secs.len() && !covers(secs[from], value) {
        law_covering_is_first(value, secs, from + 1);
    }
}

} // verus!
