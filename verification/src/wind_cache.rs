//! Naming stored wind fields: what tells one from another, how they are
//! listed, and which one a name asks for.
use vstd::prelude::*;
use vstd::string::*;

use crate::config;
use crate::text;
use crate::wind_field::WindField;

verus! {

/// What a wind source says of itself. Everything here but the problem tells
/// fields apart. A generated field is not read from any file, and is told from
/// those that are by that alone.
#[derive(Debug)]
pub struct SourceMeta {
    pub file: Option<String>,
    pub file_size: Option<u64>,
    pub file_mtime: Option<i64>,
    pub time_index: u32,
    pub valid_time: Option<String>,
    pub time_step_count: u32,
    pub spatial_stride: Option<u32>,
    /// Whether the field is generated rather than read.
    pub synthetic: bool,
    pub problem: Option<String>,
}

/// The text of an optional text, empty if there is none.
pub open spec fn text_or_empty(s: Option<String>) -> Seq<char> {
    match s {
        Some(t) => t@,
        None => Seq::empty(),
    }
}

/// Which file, step and stride a field is read with.
pub open spec fn file_identity(m: SourceMeta) -> Seq<char> {
    text_or_empty(m.file) + seq!['|'] + text::decimal(
        (match m.file_size {
            Some(n) => n,
            None => 0,
        }) as nat,
    ) + seq!['|'] + text::signed_decimal(
        (match m.file_mtime {
            Some(t) => t,
            None => 0,
        }) as int,
    ) + seq!['|'] + text::decimal(m.time_index as nat) + seq!['|'] + text::decimal(
        (match m.spatial_stride {
            Some(n) => n,
            None => 0,
        }) as nat,
    )
}

/// Everything that changes the field, written out. The time of observation is
/// free text, as the file is; its length behind it says where it begins.
pub open spec fn identity(m: SourceMeta) -> Seq<char> {
    if m.synthetic {
        "synthetic"@
    } else {
        file_identity(m) + seq!['|'] + text::decimal(m.time_step_count as nat) + seq!['|']
            + text_or_empty(m.valid_time) + seq!['|'] + text::decimal(
            text_or_empty(m.valid_time).len(),
        )
    }
}

/// The hash of the first `k` bytes: each is mixed in and multiplied on,
/// within 64 bits.
pub open spec fn hashed(b: Seq<u8>, k: nat) -> u64
    decreases k,
{
    if k == 0 {
        0xcbf2_9ce4_8422_2325
    } else {
        (hashed(b, (k - 1) as nat) ^ (b[k - 1] as u64)).wrapping_mul(0x100_0000_01b3)
    }
}

/// A hash that stays the same across platforms and releases. It names entries
/// and does not defend them.
pub fn fnv1a(bytes: &[u8]) -> (h: u64)
    ensures
        h == hashed(bytes@, bytes@.len()),
{
    let mut h: u64 = 0xcbf2_9ce4_8422_2325;
    let mut i: usize = 0;
    while i < bytes.len()
        invariant
            i <= bytes@.len(),
            h == hashed(bytes@, i as nat),
        decreases bytes@.len() - i,
    {
        h = (h ^ (bytes[i] as u64)).wrapping_mul(0x100_0000_01b3);
        i += 1;
    }
    h
}

/// How a field is named for readers: by its time of observation, if known.
pub open spec fn label_of(m: SourceMeta) -> Seq<char> {
    if m.synthetic {
        "synthetic"@
    } else {
        match m.valid_time {
            Some(t) => t@,
            None => "step"@ + text::decimal(m.time_index as nat),
        }
    }
}

impl SourceMeta {
    fn file_text(&self) -> (s: String)
        ensures
            s@ == file_identity(*self),
    {
        let mut s: String = match &self.file {
            Some(f) => text::copy(f),
            None => String::new(),
        };
        proof {
            reveal_strlit("|");
        }
        s.append("|");
        text::push_decimal(
            &mut s,
            match self.file_size {
                Some(n) => n,
                None => 0,
            },
        );
        s.append("|");
        text::push_signed_decimal(
            &mut s,
            match self.file_mtime {
                Some(t) => t,
                None => 0,
            },
        );
        s.append("|");
        text::push_decimal(&mut s, self.time_index as u64);
        s.append("|");
        text::push_decimal(
            &mut s,
            match self.spatial_stride {
                Some(n) => n as u64,
                None => 0,
            },
        );
        assert(s@ =~= file_identity(*self));
        s
    }

    fn identity_text(&self) -> (s: String)
        ensures
            s@ == identity(*self),
    {
        if self.synthetic {
            return "synthetic".to_owned();
        }
        proof {
            reveal_strlit("|");
        }
        let mut s: String = self.file_text();
        s.append("|");
        text::push_decimal(&mut s, self.time_step_count as u64);
        s.append("|");
        let observed: String = match &self.valid_time {
            Some(t) => text::copy(t),
            None => String::new(),
        };
        s.append(observed.as_str());
        s.append("|");
        text::push_decimal(&mut s, observed.as_str().unicode_len() as u64);
        assert(s@ =~= identity(*self));
        s
    }

    /// A short, stable key over exactly the things that change the field.
    pub fn cache_key(&self) -> (s: String)
        ensures
            s@ == text::hex(
                hashed(
                    vstd::utf8::encode_utf8(identity(*self)),
                    vstd::utf8::encode_utf8(identity(*self)).len(),
                ) as nat,
                16,
            ),
    {
        let name: String = self.identity_text();
        let h: u64 = fnv1a(name.as_str().as_bytes());
        let mut s: String = String::new();
        text::push_hex(&mut s, h, 16);
        assert(s@ =~= text::hex(h as nat, 16));
        s
    }

    /// How this field is named on the command line and in write-ups.
    pub fn label(&self) -> (s: String)
        ensures
            s@ == label_of(*self),
    {
        if self.synthetic {
            return "synthetic".to_owned();
        }
        match &self.valid_time {
            Some(t) => text::copy(t),
            None => {
                let mut s: String = "step".to_owned();
                text::push_decimal(&mut s, self.time_index as u64);
                s
            },
        }
    }

    /// A copy.
    pub fn copy(&self) -> (r: SourceMeta)
        ensures
            same_source(*self, r),
    {
        SourceMeta {
            file: copy_option(&self.file),
            file_size: self.file_size,
            file_mtime: self.file_mtime,
            time_index: self.time_index,
            valid_time: copy_option(&self.valid_time),
            time_step_count: self.time_step_count,
            spatial_stride: self.spatial_stride,
            synthetic: self.synthetic,
            problem: copy_option(&self.problem),
        }
    }
}

/// Whether two optional texts say the same.
pub open spec fn same_option(a: Option<String>, b: Option<String>) -> bool {
    match (a, b) {
        (Some(x), Some(y)) => x@ == y@,
        (None, None) => true,
        _ => false,
    }
}

/// Whether two sources say the same of themselves.
pub open spec fn same_source(a: SourceMeta, b: SourceMeta) -> bool {
    &&& same_option(a.file, b.file)
    &&& a.file_size == b.file_size
    &&& a.file_mtime == b.file_mtime
    &&& a.time_index == b.time_index
    &&& same_option(a.valid_time, b.valid_time)
    &&& a.time_step_count == b.time_step_count
    &&& a.spatial_stride == b.spatial_stride
    &&& a.synthetic == b.synthetic
    &&& same_option(a.problem, b.problem)
}

fn copy_option(s: &Option<String>) -> (r: Option<String>)
    ensures
        same_option(*s, r),
{
    match s {
        Some(t) => Some(text::copy(t)),
        None => None,
    }
}

proof fn lemma_digits_hold_no_bar(n: nat)
    ensures
        !text::decimal(n).contains('|'),
{
    text::lemma_decimal_digits(n);
}

proof fn lemma_signed_holds_no_bar(v: int)
    ensures
        !text::signed_decimal(v).contains('|'),
{
    if v < 0 {
        let d = text::decimal((-v) as nat);
        lemma_digits_hold_no_bar((-v) as nat);
        let s = text::signed_decimal(v);
        if s.contains('|') {
            let i = s.index_of('|');
            assert(d[i - 1] == '|');
        }
    } else {
        lemma_digits_hold_no_bar(v as nat);
    }
}

/// The same text in front of a bar and as much text behind it are the same two
/// texts.
proof fn lemma_split_by_length(a: Seq<char>, x: Seq<char>, b: Seq<char>, y: Seq<char>)
    requires
        a + seq!['|'] + x == b + seq!['|'] + y,
        x.len() == y.len(),
    ensures
        a == b,
        x == y,
{
    let s = a + seq!['|'] + x;
    let t = b + seq!['|'] + y;
    assert(s.take(a.len() as int) =~= a);
    assert(t.take(b.len() as int) =~= b);
    assert(s.skip((a.len() + 1) as int) =~= x);
    assert(t.skip((b.len() + 1) as int) =~= y);
}

/// Whatever changes the field changes its identity: a field that is generated is
/// told from one that is read, and of those that are read two files, sizes,
/// times of change, time steps, strides, numbers of steps or times of
/// observation that differ are told apart. What is not known counts as empty or
/// zero.
pub proof fn identities_tell_fields_apart(a: SourceMeta, b: SourceMeta)
    requires
        identity(a) == identity(b),
    ensures
        a.synthetic == b.synthetic,
        !a.synthetic ==> same_field(a, b),
{
    if a.synthetic != b.synthetic {
        lemma_only_files_have_bars(a);
        lemma_only_files_have_bars(b);
    } else if !a.synthetic {
        lemma_read_fields_apart(a, b);
    }
}

proof fn lemma_only_files_have_bars(m: SourceMeta)
    ensures
        identity(m).contains('|') == !m.synthetic,
{
    reveal_strlit("synthetic");
    if !m.synthetic {
        let s = identity(m);
        let at = s.len() - text::decimal(text_or_empty(m.valid_time).len()).len() - 1;
        assert(s[at] == '|');
    }
}

/// Whether two sources that read their fields serve the same.
pub open spec fn same_field(a: SourceMeta, b: SourceMeta) -> bool {
    &&& text_or_empty(a.file) == text_or_empty(b.file)
    &&& (match a.file_size {
        Some(n) => n,
        None => 0,
    }) == (match b.file_size {
        Some(n) => n,
        None => 0,
    })
    &&& (match a.file_mtime {
        Some(n) => n,
        None => 0,
    }) == (match b.file_mtime {
        Some(n) => n,
        None => 0,
    })
    &&& a.time_index == b.time_index
    &&& (match a.spatial_stride {
        Some(n) => n,
        None => 0,
    }) == (match b.spatial_stride {
        Some(n) => n,
        None => 0,
    })
    &&& a.time_step_count == b.time_step_count
    &&& text_or_empty(a.valid_time) == text_or_empty(b.valid_time)
}

proof fn lemma_read_fields_apart(a: SourceMeta, b: SourceMeta)
    requires
        !a.synthetic,
        !b.synthetic,
        identity(a) == identity(b),
    ensures
        same_field(a, b),
{
    let size_a = (match a.file_size {
        Some(n) => n,
        None => 0,
    }) as nat;
    let size_b = (match b.file_size {
        Some(n) => n,
        None => 0,
    }) as nat;
    let time_a = (match a.file_mtime {
        Some(n) => n,
        None => 0,
    }) as int;
    let time_b = (match b.file_mtime {
        Some(n) => n,
        None => 0,
    }) as int;
    let stride_a = (match a.spatial_stride {
        Some(n) => n,
        None => 0,
    }) as nat;
    let stride_b = (match b.spatial_stride {
        Some(n) => n,
        None => 0,
    }) as nat;
    let a1 = text_or_empty(a.file);
    let b1 = text_or_empty(b.file);
    let a2 = a1 + seq!['|'] + text::decimal(size_a);
    let b2 = b1 + seq!['|'] + text::decimal(size_b);
    let a3 = a2 + seq!['|'] + text::signed_decimal(time_a);
    let b3 = b2 + seq!['|'] + text::signed_decimal(time_b);
    let a4 = a3 + seq!['|'] + text::decimal(a.time_index as nat);
    let b4 = b3 + seq!['|'] + text::decimal(b.time_index as nat);
    lemma_digits_hold_no_bar(size_a);
    lemma_digits_hold_no_bar(size_b);
    lemma_signed_holds_no_bar(time_a);
    lemma_signed_holds_no_bar(time_b);
    lemma_digits_hold_no_bar(a.time_index as nat);
    lemma_digits_hold_no_bar(b.time_index as nat);
    lemma_digits_hold_no_bar(stride_a);
    lemma_digits_hold_no_bar(stride_b);
    let a5 = a4 + seq!['|'] + text::decimal(stride_a);
    let b5 = b4 + seq!['|'] + text::decimal(stride_b);
    let a6 = a5 + seq!['|'] + text::decimal(a.time_step_count as nat);
    let b6 = b5 + seq!['|'] + text::decimal(b.time_step_count as nat);
    let (seen_a, seen_b) = (text_or_empty(a.valid_time), text_or_empty(b.valid_time));
    let a7 = a6 + seq!['|'] + seen_a;
    let b7 = b6 + seq!['|'] + seen_b;
    lemma_digits_hold_no_bar(a.time_step_count as nat);
    lemma_digits_hold_no_bar(b.time_step_count as nat);
    lemma_digits_hold_no_bar(seen_a.len());
    lemma_digits_hold_no_bar(seen_b.len());
    text::lemma_split_at_last(
        a7,
        text::decimal(seen_a.len()),
        b7,
        text::decimal(seen_b.len()),
        '|',
    );
    text::lemma_decimal_tells(seen_a.len(), seen_b.len());
    lemma_split_by_length(a6, seen_a, b6, seen_b);
    text::lemma_split_at_last(
        a5,
        text::decimal(a.time_step_count as nat),
        b5,
        text::decimal(b.time_step_count as nat),
        '|',
    );
    text::lemma_decimal_tells(a.time_step_count as nat, b.time_step_count as nat);
    text::lemma_split_at_last(a4, text::decimal(stride_a), b4, text::decimal(stride_b), '|');
    text::lemma_split_at_last(
        a3,
        text::decimal(a.time_index as nat),
        b3,
        text::decimal(b.time_index as nat),
        '|',
    );
    text::lemma_split_at_last(
        a2,
        text::signed_decimal(time_a),
        b2,
        text::signed_decimal(time_b),
        '|',
    );
    text::lemma_split_at_last(a1, text::decimal(size_a), b1, text::decimal(size_b), '|');
    text::lemma_decimal_tells(stride_a, stride_b);
    text::lemma_decimal_tells(a.time_index as nat, b.time_index as nat);
    text::lemma_signed_tells(time_a, time_b);
    text::lemma_decimal_tells(size_a, size_b);
}

/// One stored field.
#[derive(Debug)]
pub struct Entry {
    pub key: String,
    pub label: String,
    pub source: SourceMeta,
    /// When it was stored.
    pub cached_at: String,
    pub bytes: u64,
    pub levels: usize,
    pub nx: usize,
    pub ny: usize,
}

impl Entry {
    /// The entry of a field that takes so many bytes.
    pub fn new(source: &SourceMeta, field: &WindField, bytes: u64, cached_at: String) -> (e: Entry)
        ensures
            e.key@ == text::hex(
                hashed(
                    vstd::utf8::encode_utf8(identity(*source)),
                    vstd::utf8::encode_utf8(identity(*source)).len(),
                ) as nat,
                16,
            ),
            e.label@ == label_of(*source),
            same_source(*source, e.source),
            e.cached_at == cached_at,
            e.bytes == bytes,
            e.levels == field.levels@.len(),
            e.nx == field.header.nx,
            e.ny == field.header.ny,
    {
        Entry {
            key: source.cache_key(),
            label: source.label(),
            source: source.copy(),
            cached_at,
            bytes,
            levels: field.levels.len(),
            nx: field.header.nx,
            ny: field.header.ny,
        }
    }
}

/// How a moment is written into an entry.
pub fn now_iso8601(seconds: u64) -> (s: String)
    ensures
        s@ == "epoch:"@ + text::decimal(seconds as nat),
{
    let mut s: String = "epoch:".to_owned();
    text::push_decimal(&mut s, seconds);
    s
}

/// Where an entry goes in a list: after all those whose label is not before
/// its own.
pub open spec fn rank(list: Seq<Entry>, label: Seq<char>, k: int) -> int
    decreases list.len() - k,
{
    if k >= list.len() || text::precedes(list[k].label@, label) {
        k
    } else {
        rank(list, label, k + 1)
    }
}

/// The first `k` entries, latest label first; among equals in their order.
pub open spec fn listed(entries: Seq<Entry>, k: nat) -> Seq<Entry>
    decreases k,
{
    if k == 0 {
        Seq::empty()
    } else {
        let before = listed(entries, (k - 1) as nat);
        before.insert(rank(before, entries[k - 1].label@, 0), entries[k - 1])
    }
}

proof fn lemma_rank(list: Seq<Entry>, label: Seq<char>, k: int)
    requires
        0 <= k <= list.len(),
    ensures
        k <= rank(list, label, k) <= list.len(),
        forall|i: int|
            k <= i < rank(list, label, k) ==> !text::precedes((#[trigger] list[i]).label@, label),
        rank(list, label, k) < list.len() ==> text::precedes(
            list[rank(list, label, k)].label@,
            label,
        ),
    decreases list.len() - k,
{
    if k < list.len() && !text::precedes(list[k].label@, label) {
        lemma_rank(list, label, k + 1);
    }
}

/// A listing holds every entry, and a later label comes first.
pub proof fn a_listing_is_in_order(entries: Seq<Entry>, k: nat)
    requires
        k <= entries.len(),
    ensures
        listed(entries, k).len() == k,
        listed(entries, k).to_multiset() == entries.take(k as int).to_multiset(),
        forall|i: int, j: int|
            0 <= i < j < k ==> !text::precedes(
                (#[trigger] listed(entries, k)[i]).label@,
                (#[trigger] listed(entries, k)[j]).label@,
            ),
    decreases k,
{
    broadcast use vstd::seq_lib::group_to_multiset_ensures;

    if k == 0 {
        assert(entries.take(0) =~= Seq::<Entry>::empty());
    } else {
        let before = listed(entries, (k - 1) as nat);
        let e = entries[k - 1];
        let at = rank(before, e.label@, 0);
        let after = listed(entries, k);
        a_listing_is_in_order(entries, (k - 1) as nat);
        lemma_rank(before, e.label@, 0);
        assert(entries.take(k as int) =~= entries.take(k - 1).push(e));
        assert(after =~= before.insert(at, e));
        assert forall|i: int, j: int| 0 <= i < j < k implies !text::precedes(
            (#[trigger] after[i]).label@,
            (#[trigger] after[j]).label@,
        ) by {
            if j < at {
                assert(after[i] == before[i] && after[j] == before[j]);
            } else if j == at {
                assert(after[i] == before[i]);
            } else if i == at {
                let x = before[j - 1].label@;
                assert(after[j] == before[j - 1]);
                text::lemma_order_is_total(x, e.label@);
                if at == j - 1 {
                } else {
                    let y = before[at].label@;
                    assert(!text::precedes(y, x));
                    text::lemma_order_is_total(x, y);
                    if text::precedes(x, y) {
                        text::lemma_order_carries(x, y, e.label@);
                    }
                }
            } else if i < at {
                assert(after[i] == before[i] && after[j] == before[j - 1]);
            } else {
                assert(after[i] == before[i - 1] && after[j] == before[j - 1]);
            }
        }
    }
}

/// The entries, latest label first.
pub fn newest_first(entries: Vec<Entry>) -> (r: Vec<Entry>)
    ensures
        r@ == listed(entries@, entries@.len()),
{
    let ghost all = entries@;
    let mut rest: Vec<Entry> = entries;
    let mut r: Vec<Entry> = Vec::new();
    let ghost k: int = 0;
    assert(all.skip(0) =~= all);
    while rest.len() > 0
        invariant
            0 <= k <= all.len(),
            rest@ == all.skip(k),
            r@ == listed(all, k as nat),
        decreases rest@.len(),
    {
        let e: Entry = rest.remove(0);
        assert(e == all[k]);
        assert(rest@ =~= all.skip(k + 1));
        let ghost before = r@;
        let mut at: usize = 0;
        while at < r.len() && !text::is_before(r[at].label.as_str(), e.label.as_str())
            invariant
                at <= r@.len(),
                r@ == before,
                rank(r@, e.label@, 0) == rank(r@, e.label@, at as int),
            decreases r@.len() - at,
        {
            at += 1;
        }
        r.insert(at, e);
        proof {
            k = k + 1;
        }
        assert(r@ =~= listed(all, k as nat));
    }
    r
}

/// Whether an entry is called exactly this.
pub open spec fn called(e: Entry, name: Seq<char>) -> bool {
    e.key@ == name || e.label@ == name
}

/// Whether an entry's key or label begins like this.
pub open spec fn hinted(e: Entry, name: Seq<char>) -> bool {
    text::begins_with(e.key@, name) || text::begins_with(e.label@, name)
}

/// Whether a name asks for the entry at `i`: the first one called exactly
/// that, or else the only one hinted at.
pub open spec fn asked_for(entries: Seq<Entry>, name: Seq<char>, i: int) -> bool {
    &&& 0 <= i < entries.len()
    &&& {
        ||| called(entries[i], name) && forall|j: int|
            0 <= j < i ==> !called(#[trigger] entries[j], name)
        ||| (forall|j: int| 0 <= j < entries.len() ==> !called(#[trigger] entries[j], name))
            && hinted(entries[i], name) && forall|j: int|
            0 <= j < entries.len() && j != i ==> !hinted(#[trigger] entries[j], name)
    }
}

fn place_of(entries: &Vec<Entry>, name: &str) -> (r: Option<usize>)
    ensures
        match r {
            Some(i) => asked_for(entries@, name@, i as int),
            None => forall|i: int| !asked_for(entries@, name@, i),
        },
{
    let mut i: usize = 0;
    while i < entries.len()
        invariant
            i <= entries@.len(),
            forall|j: int| 0 <= j < i ==> !called(#[trigger] entries@[j], name@),
        decreases entries@.len() - i,
    {
        if text::same(entries[i].key.as_str(), name) || text::same(
            entries[i].label.as_str(),
            name,
        ) {
            return Some(i);
        }
        i += 1;
    }
    let mut hit: Option<usize> = None;
    let mut j: usize = 0;
    while j < entries.len()
        invariant
            j <= entries@.len(),
            forall|x: int| 0 <= x < entries@.len() ==> !called(#[trigger] entries@[x], name@),
            match hit {
                Some(h) => h < j && hinted(entries@[h as int], name@) && forall|x: int|
                    0 <= x < j && x != h ==> !hinted(#[trigger] entries@[x], name@),
                None => forall|x: int| 0 <= x < j ==> !hinted(#[trigger] entries@[x], name@),
            },
        decreases entries@.len() - j,
    {
        if text::starts_with(entries[j].key.as_str(), name) || text::starts_with(
            entries[j].label.as_str(),
            name,
        ) {
            if let Some(h) = hit {
                proof {
                    assert(hinted(entries@[h as int], name@) && hinted(entries@[j as int], name@));
                    assert(!called(entries@[h as int], name@));
                }
                return None;
            }
            hit = Some(j);
        }
        j += 1;
    }
    hit
}

/// What a `--wind` argument asks for.
#[derive(Debug)]
pub enum Wanted {
    /// No wind.
    Calm,
    /// The entry at this place.
    Stored(usize),
    /// Nothing there is: what to tell whoever asked.
    Missing(String),
}

/// The labels of the first `k` entries, with commas between.
pub open spec fn labels(entries: Seq<Entry>, k: nat) -> Seq<char>
    decreases k,
{
    if k == 0 {
        Seq::empty()
    } else if k == 1 {
        entries[0].label@
    } else {
        labels(entries, (k - 1) as nat) + ", "@ + entries[k - 1].label@
    }
}

/// What is said of a name that asks for nothing there is.
pub open spec fn missing_text(name: Seq<char>, dir: Seq<char>, known: Seq<char>) -> Seq<char> {
    "no wind cache entry matching "@ + text::quoted_text(name) + " in "@ + dir + ".\n  known: "@ + (
    if known.len() == 0 {
        "(cache is empty)"@
    } else {
        known
    })
        + "\n  populate it with: cargo run --release --bin wind_cache -- fetch <timeIndex...>"@
}

/// Whether a name asks for no wind.
pub open spec fn asks_for_calm(name: Seq<char>) -> bool {
    name.len() == 0 || name == "none"@ || name == "zero"@
}

fn known_labels(entries: &Vec<Entry>) -> (s: String)
    ensures
        s@ == labels(entries@, entries@.len()),
{
    let mut s: String = String::new();
    let mut i: usize = 0;
    while i < entries.len()
        invariant
            i <= entries@.len(),
            s@ == labels(entries@, i as nat),
        decreases entries@.len() - i,
    {
        if i > 0 {
            s.append(", ");
        }
        s.append(entries[i].label.as_str());
        i += 1;
        assert(s@ =~= labels(entries@, i as nat));
    }
    s
}

/// What is said of a name that asks for nothing there is.
fn missing_message(name: &str, dir: &str, known: &String) -> (s: String)
    ensures
        s@ == missing_text(name@, dir@, known@),
{
    let mut s: String = "no wind cache entry matching ".to_owned();
    s.append(text::quoted(name).as_str());
    s.append(" in ");
    s.append(dir);
    s.append(".\n  known: ");
    if known.as_str().unicode_len() == 0 {
        s.append("(cache is empty)");
    } else {
        s.append(known.as_str());
    }
    s.append("\n  populate it with: cargo run --release --bin wind_cache -- fetch <timeIndex...>");
    s
}

/// Whether a list of file names has this one.
pub open spec fn has_file(files: Seq<String>, name: Seq<char>) -> bool {
    exists|i: int| 0 <= i < files.len() && (#[trigger] files[i])@ == name
}

/// The file that a field is in.
pub open spec fn field_file(key: Seq<char>) -> Seq<char> {
    key + ".bin"@
}

/// The file that says what a field is.
pub open spec fn manifest_file(key: Seq<char>) -> Seq<char> {
    key + ".json"@
}

/// The manifests whose field is there.
pub open spec fn loadable(manifests: Seq<Entry>, files: Seq<String>) -> Seq<Entry> {
    manifests.filter(|e: Entry| has_file(files, field_file(e.key@)))
}

/// A directory of stored fields, as it was when it was looked at.
#[derive(Debug)]
pub struct WindCache {
    pub dir: String,
    /// The names of its files.
    pub files: Vec<String>,
    /// What can be loaded from it, latest label first.
    pub entries: Vec<Entry>,
}

impl WindCache {
    /// What a directory with these files holds, whose manifests say this. A
    /// manifest without its field is the trace of an interrupted store and is
    /// passed over.
    pub fn at(dir: String, files: Vec<String>, manifests: Vec<Entry>) -> (c: WindCache)
        ensures
            c.dir == dir,
            c.files == files,
            c.entries@ == listed(
                loadable(manifests@, files@),
                loadable(manifests@, files@).len(),
            ),
    {
        let ghost all = manifests@;
        let ghost whole = |e: Entry| has_file(files@, field_file(e.key@));
        let mut rest: Vec<Entry> = manifests;
        let mut kept: Vec<Entry> = Vec::new();
        let ghost k: int = 0;
        assert(all.skip(0) =~= all);
        assert(all.take(0).filter(whole) =~= Seq::empty()) by {
            reveal(Seq::filter);
        }
        while rest.len() > 0
            invariant
                0 <= k <= all.len(),
                rest@ == all.skip(k),
                whole == (|e: Entry| has_file(files@, field_file(e.key@))),
                kept@ == all.take(k).filter(whole),
            decreases rest@.len(),
        {
            let e: Entry = rest.remove(0);
            assert(e == all[k]);
            assert(rest@ =~= all.skip(k + 1));
            assert(all.take(k + 1) =~= all.take(k).push(e));
            assert(all.take(k + 1).drop_last() =~= all.take(k));
            assert(all.take(k + 1).filter(whole) == if whole(e) {
                all.take(k).filter(whole).push(e)
            } else {
                all.take(k).filter(whole)
            }) by {
                reveal(Seq::filter);
            }
            if is_there(&files, &field_name(e.key.as_str())) {
                kept.push(e);
            }
            proof {
                k = k + 1;
            }
        }
        assert(all.take(k) =~= all);
        WindCache { dir, files, entries: newest_first(kept) }
    }

    pub fn dir(&self) -> (r: &str)
        ensures
            r@ == self.dir@,
    {
        self.dir.as_str()
    }

    /// Whether a field and its manifest are both there.
    pub fn contains(&self, key: &str) -> (r: bool)
        ensures
            r == (has_file(self.files@, field_file(key@)) && has_file(
                self.files@,
                manifest_file(key@),
            )),
    {
        is_there(&self.files, &field_name(key)) && is_there(&self.files, &manifest_name(key))
    }

    /// Every entry present, latest label first.
    pub fn entries(&self) -> (r: &Vec<Entry>)
        ensures
            *r == self.entries,
    {
        &self.entries
    }

    /// Which entry a name asks for: a key, a label, or the beginning of one
    /// that no other shares.
    pub fn find(&self, name: &str) -> (r: Option<&Entry>)
        ensures
            match r {
                Some(e) => exists|i: int| #[trigger]
                    asked_for(self.entries@, name@, i) && *e == self.entries@[i],
                None => forall|i: int| !asked_for(self.entries@, name@, i),
            },
    {
        match place_of(&self.entries, name) {
            Some(i) => Some(&self.entries[i]),
            None => None,
        }
    }
}

/// The file that a field is in.
pub fn field_name(key: &str) -> (s: String)
    ensures
        s@ == field_file(key@),
{
    let mut s: String = key.to_owned();
    s.append(".bin");
    s
}

/// The file that says what a field is.
pub fn manifest_name(key: &str) -> (s: String)
    ensures
        s@ == manifest_file(key@),
{
    let mut s: String = key.to_owned();
    s.append(".json");
    s
}

fn is_there(files: &Vec<String>, name: &String) -> (r: bool)
    ensures
        r == has_file(files@, name@),
{
    let mut i: usize = 0;
    while i < files.len()
        invariant
            i <= files@.len(),
            forall|j: int| 0 <= j < i ==> (#[trigger] files@[j])@ != name@,
        decreases files@.len() - i,
    {
        if text::same(files[i].as_str(), name.as_str()) {
            assert(files@[i as int]@ == name@);
            return true;
        }
        i += 1;
    }
    false
}

/// A field that is written before its manifest shows once both are there, and
/// not before: half a store is no entry.
pub proof fn half_a_store_is_no_entry(manifests: Seq<Entry>, files: Seq<String>, e: Entry)
    ensures
        has_file(files, field_file(e.key@)) ==> loadable(manifests.push(e), files) == loadable(
            manifests,
            files,
        ).push(e),
        !has_file(files, field_file(e.key@)) ==> loadable(manifests.push(e), files) == loadable(
            manifests,
            files,
        ),
{
    reveal(Seq::filter);
    assert(manifests.push(e).drop_last() =~= manifests);
}

/// What a `--wind` argument asks for. A name that matches nothing is an error,
/// never calm: a run with another field than the one asked for looks fine and
/// is not.
pub fn resolve(name: &str, cache: &WindCache) -> (r: Wanted)
    ensures
        match r {
            Wanted::Calm => asks_for_calm(name@),
            Wanted::Stored(i) => !asks_for_calm(name@) && asked_for(cache.entries@, name@, i as int),
            Wanted::Missing(s) => {
                &&& !asks_for_calm(name@)
                &&& forall|i: int| !asked_for(cache.entries@, name@, i)
                &&& s@ == missing_text(name@, cache.dir@, labels(cache.entries@, cache.entries@.len()))
            },
        },
{
    if name.unicode_len() == 0 || text::same(name, "none") || text::same(name, "zero") {
        return Wanted::Calm;
    }
    match place_of(&cache.entries, name) {
        Some(i) => Wanted::Stored(i),
        None => Wanted::Missing(missing_message(name, cache.dir.as_str(), &known_labels(&cache.entries))),
    }
}

/// Which wind a server starts with.
#[derive(Debug)]
pub enum Start {
    /// No wind.
    Calm,
    /// The stored field at this place.
    Stored(usize),
    /// The source's field, which is then stored.
    Fetch,
    /// A name was given that nothing stored goes by: what to tell.
    Missing(String),
}

/// Whether the entry at `i` is the first stored under this key.
pub open spec fn first_kept(entries: Seq<Entry>, key: Seq<char>, i: int) -> bool {
    &&& 0 <= i < entries.len()
    &&& entries[i].key@ == key
    &&& forall|j: int| 0 <= j < i ==> (#[trigger] entries[j]).key@ != key
}

fn kept_at(entries: &Vec<Entry>, key: &String) -> (r: Option<usize>)
    ensures
        match r {
            Some(i) => first_kept(entries@, key@, i as int),
            None => forall|i: int| 0 <= i < entries@.len() ==> (#[trigger] entries@[i]).key@ != key@,
        },
{
    let mut i: usize = 0;
    while i < entries.len()
        invariant
            i <= entries@.len(),
            forall|j: int| 0 <= j < i ==> (#[trigger] entries@[j]).key@ != key@,
        decreases entries@.len() - i,
    {
        if text::same(entries[i].key.as_str(), key.as_str()) {
            return Some(i);
        }
        i += 1;
    }
    None
}

/// Which wind a server starts with, given what `--wind` names, what is stored
/// (the newest first) and the key of the field that the source serves, if it
/// answers. `auto` looks in the store before it fetches; where the source does
/// not answer it settles for the newest there is, and with nothing stored for
/// calm. Any other name is taken as a harness takes it.
pub fn start_with(name: &str, cache: &WindCache, served: Option<&String>) -> (r: Start)
    ensures
        name@ == "auto"@ ==> match r {
            Start::Stored(i) => match served {
                Some(key) => first_kept(cache.entries@, key@, i as int),
                None => i == 0 && cache.entries@.len() > 0,
            },
            Start::Fetch => served is Some && forall|i: int|
                0 <= i < cache.entries@.len() ==> (#[trigger] cache.entries@[i]).key@ != served->Some_0@,
            Start::Calm => served is None && cache.entries@.len() == 0,
            Start::Missing(_) => false,
        },
        name@ != "auto"@ ==> match r {
            Start::Calm => asks_for_calm(name@),
            Start::Stored(i) => !asks_for_calm(name@) && asked_for(cache.entries@, name@, i as int),
            Start::Fetch => false,
            Start::Missing(s) => {
                &&& !asks_for_calm(name@)
                &&& forall|i: int| !asked_for(cache.entries@, name@, i)
                &&& s@ == missing_text(name@, cache.dir@, labels(cache.entries@, cache.entries@.len()))
            },
        },
{
    if text::same(name, "auto") {
        return match served {
            Some(key) => match kept_at(&cache.entries, key) {
                Some(i) => Start::Stored(i),
                None => Start::Fetch,
            },
            None => if cache.entries.len() > 0 {
                Start::Stored(0)
            } else {
                Start::Calm
            },
        };
    }
    match resolve(name, cache) {
        Wanted::Calm => Start::Calm,
        Wanted::Stored(i) => Start::Stored(i),
        Wanted::Missing(s) => Start::Missing(s),
    }
}

/// Where a source, or one of its steps, is asked what it is.
pub open spec fn source_address(step: Option<u32>) -> Seq<char> {
    config::WIND_API_URL@ + "/source"@ + match step {
        Some(i) => "?timeIndex="@ + text::decimal(i as nat),
        None => Seq::empty(),
    }
}

/// Where a field is fetched. The source's own step goes by no number.
pub open spec fn field_address(time_index: u32, default_step: bool) -> Seq<char> {
    config::WIND_API_URL@ + if default_step {
        Seq::empty()
    } else {
        "?timeIndex="@ + text::decimal(time_index as nat)
    }
}

/// Where a source, or one of its steps, is asked what it is.
pub fn source_url(step: Option<u32>) -> (s: String)
    ensures
        s@ == source_address(step),
{
    let mut s: String = config::WIND_API_URL.to_owned();
    s.append("/source");
    if let Some(i) = step {
        s.append("?timeIndex=");
        text::push_decimal(&mut s, i as u64);
    }
    assert(s@ =~= source_address(step));
    s
}

/// Where a field is fetched. The source's own step goes by no number.
pub fn field_url(time_index: u32, default_step: bool) -> (s: String)
    ensures
        s@ == field_address(time_index, default_step),
{
    let mut s: String = config::WIND_API_URL.to_owned();
    if !default_step {
        s.append("?timeIndex=");
        text::push_decimal(&mut s, time_index as u64);
    }
    assert(s@ =~= field_address(time_index, default_step));
    s
}

/// Which steps are to be fetched: those asked for, or the source's own if none
/// are. A generated field has no steps.
pub fn steps_to_fetch(base: &SourceMeta, asked: &Vec<u32>) -> (r: Option<Vec<u32>>)
    ensures
        match r {
            Some(steps) => !base.synthetic && steps@ == if asked@.len() == 0 {
                seq![base.time_index]
            } else {
                asked@
            },
            None => base.synthetic,
        },
{
    if base.synthetic {
        return None;
    }
    if asked.len() == 0 {
        let steps: Vec<u32> = vec![base.time_index];
        assert(steps@ =~= seq![base.time_index]);
        return Some(steps);
    }
    let steps: Vec<u32> = vstd::slice::slice_to_vec(asked.as_slice());
    assert(steps@ =~= asked@);
    Some(steps)
}

} // verus!
