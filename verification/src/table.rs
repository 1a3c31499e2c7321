//! Results put in order and written out as lines.
use vstd::prelude::*;
use vstd::string::*;

use crate::text;

verus! {

/// What results are ordered by: the first number, then the second, then the
/// third. A value that is no whole number is stood for by its rank.
#[derive(Debug, Clone, Copy, PartialEq, Eq, Structural)]
pub struct SortKey {
    pub first: u64,
    pub second: u64,
    pub third: i64,
}

/// Whether one key comes before another.
pub open spec fn sorts_before(a: SortKey, b: SortKey) -> bool {
    a.first < b.first || a.first == b.first && (a.second < b.second || a.second == b.second
        && a.third < b.third)
}

/// Whether these places put the keys in order, equal keys as they came.
pub open spec fn in_order(keys: Seq<SortKey>, places: Seq<usize>) -> bool {
    forall|x: int, y: int|
        0 <= x < y < places.len() ==> {
            ||| sorts_before(keys[#[trigger] places[x] as int], keys[#[trigger] places[y] as int])
            ||| keys[places[x] as int] == keys[places[y] as int] && places[x] < places[y]
        }
}

/// Whether these are the places of the first `n` keys, each once.
pub open spec fn all_places(places: Seq<usize>, n: nat) -> bool {
    &&& places.len() == n
    &&& places.no_duplicates()
    &&& forall|x: int| 0 <= x < places.len() ==> (#[trigger] places[x]) < n
}

impl SortKey {
    fn before(self, other: SortKey) -> (r: bool)
        ensures
            r == sorts_before(self, other),
    {
        self.first < other.first || self.first == other.first && (self.second < other.second
            || self.second == other.second && self.third < other.third)
    }
}

/// The places of the keys, in order.
pub fn ranking(keys: &Vec<SortKey>) -> (places: Vec<usize>)
    ensures
        all_places(places@, keys@.len()),
        in_order(keys@, places@),
{
    let mut places: Vec<usize> = Vec::new();
    let mut i: usize = 0;
    while i < keys.len()
        invariant
            i <= keys@.len(),
            all_places(places@, i as nat),
            in_order(keys@, places@),
        decreases keys@.len() - i,
    {
        let ghost before = places@;
        let mut at: usize = 0;
        while at < places.len() && !keys[i].before(keys[places[at]])
            invariant
                at <= places@.len(),
                i < keys@.len(),
                places@ == before,
                all_places(before, i as nat),
                forall|x: int|
                    0 <= x < at ==> !sorts_before(
                        keys@[i as int],
                        keys@[#[trigger] before[x] as int],
                    ),
            decreases places@.len() - at,
        {
            at += 1;
        }
        places.insert(at, i);
        proof {
            let after = places@;
            assert(after =~= before.insert(at as int, i));
            assert forall|x: int| 0 <= x < after.len() implies (#[trigger] after[x]) < i + 1 by {
                if x < at {
                    assert(after[x] == before[x]);
                } else if x > at {
                    assert(after[x] == before[x - 1]);
                }
            }
            assert forall|x: int, y: int| 0 <= x < y < after.len() implies after[x] != after[y] by {
                let u = if x < at {
                    x
                } else {
                    x - 1
                };
                let v = if y < at {
                    y
                } else {
                    y - 1
                };
                if x == at {
                    assert(after[y] == before[y - 1]);
                    assert(before[y - 1] < i);
                } else if y == at {
                    assert(after[x] == before[x]);
                    assert(before[x] < i);
                } else {
                    assert(after[x] == before[u] && after[y] == before[v]);
                }
            }
            assert(after.no_duplicates());
            assert forall|x: int, y: int| 0 <= x < y < after.len() implies {
                ||| sorts_before(
                    keys@[#[trigger] after[x] as int],
                    keys@[#[trigger] after[y] as int],
                )
                ||| keys@[after[x] as int] == keys@[after[y] as int] && after[x] < after[y]
            } by {
                if y == at {
                    assert(after[x] == before[x]);
                    assert(!sorts_before(keys@[i as int], keys@[before[x] as int]));
                    assert(before[x] < i);
                } else if x == at {
                    assert(after[y] == before[y - 1]);
                    assert(before[at as int] < i);
                    assert(sorts_before(keys@[i as int], keys@[before[at as int] as int]));
                    if y - 1 > at {
                        assert({
                            ||| sorts_before(
                                keys@[before[at as int] as int],
                                keys@[before[y - 1] as int],
                            )
                            ||| keys@[before[at as int] as int] == keys@[before[y - 1] as int]
                        });
                    }
                } else if y < at {
                    assert(after[x] == before[x] && after[y] == before[y]);
                } else if x < at {
                    assert(after[x] == before[x] && after[y] == before[y - 1]);
                } else {
                    assert(after[x] == before[x - 1] && after[y] == before[y - 1]);
                }
            }
        }
        i += 1;
    }
    places
}

/// The first `k` of the lines at these places, each ended.
pub open spec fn ended_lines(lines: Seq<String>, places: Seq<usize>, k: nat) -> Seq<char>
    decreases k,
{
    if k == 0 {
        Seq::empty()
    } else {
        ended_lines(lines, places, (k - 1) as nat) + lines[places[k - 1] as int]@ + "\n"@
    }
}

/// A heading and the lines below it in the order of their keys.
pub fn combined(heading: &str, keys: &Vec<SortKey>, lines: &Vec<String>) -> (out: String)
    requires
        keys@.len() == lines@.len(),
    ensures
        exists|places: Seq<usize>|
            all_places(places, keys@.len()) && in_order(keys@, places) && out@ == heading@
                + "\n"@ + #[trigger] ended_lines(lines@, places, places.len()),
{
    let places: Vec<usize> = ranking(keys);
    let mut out: String = heading.to_owned();
    out.append("\n");
    let ghost top = out@;
    let mut k: usize = 0;
    assert(top =~= top + ended_lines(lines@, places@, 0));
    while k < places.len()
        invariant
            k <= places@.len(),
            all_places(places@, lines@.len()),
            out@ == top + ended_lines(lines@, places@, k as nat),
        decreases places@.len() - k,
    {
        assert(places@[k as int] < lines@.len());
        out.append(lines[places[k]].as_str());
        out.append("\n");
        k += 1;
        assert(out@ =~= top + ended_lines(lines@, places@, k as nat));
    }
    out
}

/// One result of the connectivity sweep. Values that are no whole numbers come
/// written out.
#[derive(Debug)]
pub struct ResultRow {
    pub horizon_coeff: String,
    pub n_balloons: u32,
    pub fallback_timeout_min: i64,
    pub ack_duration_sec: i64,
    pub total_payloads: u64,
    pub radio_delivered: u64,
    pub satellite_delivered: u64,
    pub pct_radio: String,
    pub pct_satellite: String,
}

impl ResultRow {
    /// The row as a line of comma-separated values.
    pub fn line(&self) -> (s: String)
        ensures
            s@ == self.horizon_coeff@ + ","@ + text::decimal(self.n_balloons as nat) + ","@
                + text::signed_decimal(self.fallback_timeout_min as int) + ","@
                + text::signed_decimal(self.ack_duration_sec as int) + ","@ + text::decimal(
                self.total_payloads as nat,
            ) + ","@ + text::decimal(self.radio_delivered as nat) + ","@ + text::decimal(
                self.satellite_delivered as nat,
            ) + ","@ + self.pct_radio@ + ","@ + self.pct_satellite@,
    {
        let mut s: String = text::copy(&self.horizon_coeff);
        s.append(",");
        text::push_decimal(&mut s, self.n_balloons as u64);
        s.append(",");
        text::push_signed_decimal(&mut s, self.fallback_timeout_min);
        s.append(",");
        text::push_signed_decimal(&mut s, self.ack_duration_sec);
        s.append(",");
        text::push_decimal(&mut s, self.total_payloads);
        s.append(",");
        text::push_decimal(&mut s, self.radio_delivered);
        s.append(",");
        text::push_decimal(&mut s, self.satellite_delivered);
        s.append(",");
        s.append(self.pct_radio.as_str());
        s.append(",");
        s.append(self.pct_satellite.as_str());
        s
    }

    /// What the row is ordered by, given the rank of its coefficient.
    pub fn key(&self, coeff_rank: u64) -> (k: SortKey)
        ensures
            k == (SortKey {
                first: coeff_rank,
                second: self.n_balloons as u64,
                third: self.fallback_timeout_min,
            }),
    {
        SortKey {
            first: coeff_rank,
            second: self.n_balloons as u64,
            third: self.fallback_timeout_min,
        }
    }
}

/// Where the `n`th comma stands, counting from one.
pub open spec fn comma(s: Seq<char>, n: nat, k: int) -> Option<int>
    decreases s.len() - k,
{
    if k >= s.len() || n == 0 {
        None
    } else if s[k] == ',' {
        if n == 1 {
            Some(k)
        } else {
            comma(s, (n - 1) as nat, k + 1)
        }
    } else {
        comma(s, n, k + 1)
    }
}

/// What a finished line is known by: its first `fields` values, if it has
/// more than that.
pub fn row_key(line: &str, fields: u32) -> (r: Option<String>)
    ensures
        match r {
            Some(s) => comma(line@, fields as nat, 0) matches Some(p) && 0 <= p <= line@.len()
                && s@ == line@.take(p),
            None => comma(line@, fields as nat, 0) is None,
        },
{
    let len: usize = line.unicode_len();
    let mut left: u32 = fields;
    let mut k: usize = 0;
    while k < len && left > 0
        invariant
            k <= len,
            len == line@.len(),
            comma(line@, fields as nat, 0) == comma(line@, left as nat, k as int),
        decreases len - k,
    {
        if line.get_char(k) == ',' {
            if left == 1 {
                let start: &str = line.substring_char(0, k);
                assert(start@ =~= line@.take(k as int));
                return Some(start.to_owned());
            }
            left = left - 1;
        }
        k += 1;
    }
    None
}

/// What a run over stored weather is known by.
pub fn run_key(wind: &str, seed: u64, protocol: &str) -> (s: String)
    ensures
        s@ == wind@ + ","@ + text::decimal(seed as nat) + ","@ + protocol@,
{
    let mut s: String = wind.to_owned();
    s.append(",");
    text::push_decimal(&mut s, seed);
    s.append(",");
    s.append(protocol);
    s
}

} // verus!
