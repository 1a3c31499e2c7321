//! Which protocol a world should run, written as a line of text: a name, and
//! optionally a colon and settings `key=value` separated by commas.
use std::str::FromStr;

use vstd::prelude::*;
use vstd::string::*;

use crate::text;

use super::dv_dtn;
use super::dv_dtn::params::{AckPolicy, BatchPolicy, Discovery, DvDtnParams, Metric,
    QueueDiscipline, ReplyOverhearing, ReplyPolicy, RingSearch};
use super::epidemic;
use super::epidemic::params::EpidemicParams;

verus! {

/// A protocol and its parameters.
#[derive(Debug, Clone, Copy, PartialEq, Eq, Structural)]
pub enum ProtocolSpec {
    DvDtn(DvDtnParams),
    Epidemic(EpidemicParams),
}

impl Default for ProtocolSpec {
    fn default() -> (r: ProtocolSpec)
        ensures
            r == ProtocolSpec::DvDtn(dv_dtn::params::default_params()),
    {
        ProtocolSpec::DvDtn(DvDtnParams::default())
    }
}

/// What can be wrong with a line of text.
#[derive(Debug)]
pub enum SpecError {
    UnknownProtocol(String),
    /// A setting without `=`.
    Malformed(String),
    UnknownKey(String),
    /// A value that the key does not take.
    BadValue(String, String),
    /// The ack digest rides tower beacons, and only proactive discovery sends
    /// those.
    DigestNeedsBeacons,
}

/// The mathematical content of a `SpecError`.
#[verifier::ext_equal]
pub enum SpecFault {
    UnknownProtocol(Seq<char>),
    Malformed(Seq<char>),
    UnknownKey(Seq<char>),
    BadValue(Seq<char>, Seq<char>),
    DigestNeedsBeacons,
}

impl View for SpecError {
    type V = SpecFault;

    open spec fn view(&self) -> SpecFault {
        match self {
            SpecError::UnknownProtocol(s) => SpecFault::UnknownProtocol(s@),
            SpecError::Malformed(s) => SpecFault::Malformed(s@),
            SpecError::UnknownKey(s) => SpecFault::UnknownKey(s@),
            SpecError::BadValue(k, v) => SpecFault::BadValue(k@, v@),
            SpecError::DigestNeedsBeacons => SpecFault::DigestNeedsBeacons,
        }
    }
}

/// What an error says.
pub open spec fn fault_text(f: SpecFault) -> Seq<char> {
    match f {
        SpecFault::UnknownProtocol(s) => "unknown protocol "@ + text::quoted_text(s)
            + " (known: dv-dtn, epidemic)"@,
        SpecFault::Malformed(s) => "setting "@ + text::quoted_text(s) + " is not key=value"@,
        SpecFault::UnknownKey(s) => "unknown setting "@ + text::quoted_text(s),
        SpecFault::BadValue(k, v) => "bad value "@ + text::quoted_text(v) + " for "@
            + text::quoted_text(k),
        SpecFault::DigestNeedsBeacons =>
            "ack=digest rides tower beacons, which only proactive discovery sends"@,
    }
}

impl SpecError {
    /// The error as a sentence.
    pub fn message(&self) -> (r: String)
        ensures
            r@ == fault_text(self@),
    {
        let mut r: String = String::new();
        match self {
            SpecError::UnknownProtocol(s) => {
                r.append("unknown protocol ");
                r.append(text::quoted(s.as_str()).as_str());
                r.append(" (known: dv-dtn, epidemic)");
            },
            SpecError::Malformed(s) => {
                r.append("setting ");
                r.append(text::quoted(s.as_str()).as_str());
                r.append(" is not key=value");
            },
            SpecError::UnknownKey(s) => {
                r.append("unknown setting ");
                r.append(text::quoted(s.as_str()).as_str());
            },
            SpecError::BadValue(k, v) => {
                r.append("bad value ");
                r.append(text::quoted(v.as_str()).as_str());
                r.append(" for ");
                r.append(text::quoted(k.as_str()).as_str());
            },
            SpecError::DigestNeedsBeacons => {
                r.append("ack=digest rides tower beacons, which only proactive discovery sends");
            },
        }
        assert(r@ =~= fault_text(self@));
        r
    }
}

/// A result with the error by its content.
pub open spec fn content<T>(r: Result<T, SpecError>) -> Result<T, SpecFault> {
    match r {
        Ok(t) => Ok(t),
        Err(e) => Err(e@),
    }
}

// ---------------------------------------------------------------------------
// Settings
// ---------------------------------------------------------------------------

/// A whole number that a `usize` holds.
pub open spec fn size_of_text(v: Seq<char>) -> Option<usize> {
    match text::number(v) {
        Some(n) => if n <= usize::MAX && n <= u64::MAX {
            Some(n as usize)
        } else {
            None
        },
        None => None,
    }
}

/// A whole number that a `u32` holds.
pub open spec fn count_of_text(v: Seq<char>) -> Option<u32> {
    match text::number(v) {
        Some(n) => if n <= u32::MAX {
            Some(n as u32)
        } else {
            None
        },
        None => None,
    }
}

/// One setting of distance-vector delivery.
pub open spec fn dv_set(p: DvDtnParams, key: Seq<char>, value: Seq<char>) -> Result<
    DvDtnParams,
    SpecFault,
> {
    let bad = Err(SpecFault::BadValue(key, value));
    if key == "discovery"@ {
        if value == "proactive"@ {
            Ok(DvDtnParams { discovery: Discovery::Proactive, ..p })
        } else if value == "reactive"@ {
            Ok(DvDtnParams { discovery: Discovery::Reactive, ..p })
        } else if value == "link-state"@ {
            Ok(DvDtnParams { discovery: Discovery::LinkState, ..p })
        } else {
            bad
        }
    } else if key == "ack"@ {
        if value == "source-routed"@ {
            Ok(DvDtnParams { ack_policy: AckPolicy::SourceRouted, ..p })
        } else if value == "digest"@ {
            Ok(DvDtnParams { ack_policy: AckPolicy::Digest, ..p })
        } else {
            bad
        }
    } else if key == "reply"@ {
        if value == "intermediate"@ {
            Ok(DvDtnParams { reply_policy: ReplyPolicy::Intermediate, ..p })
        } else if value == "tower"@ {
            Ok(DvDtnParams { reply_policy: ReplyPolicy::TowerAdjacent, ..p })
        } else {
            bad
        }
    } else if key == "overhear"@ {
        if value == "on"@ {
            Ok(DvDtnParams { reply_overhearing: ReplyOverhearing::On, ..p })
        } else if value == "off"@ {
            Ok(DvDtnParams { reply_overhearing: ReplyOverhearing::Off, ..p })
        } else {
            bad
        }
    } else if key == "ring"@ {
        if value == "max"@ {
            Ok(DvDtnParams { ring_search: RingSearch::Max, ..p })
        } else if value == "expanding"@ {
            Ok(DvDtnParams { ring_search: RingSearch::Expanding, ..p })
        } else {
            bad
        }
    } else if key == "metric"@ {
        if value == "freshest"@ {
            Ok(DvDtnParams { metric: Metric::FreshestFirst, ..p })
        } else if value == "nearest"@ {
            Ok(DvDtnParams { metric: Metric::NearestFirst, ..p })
        } else {
            bad
        }
    } else if key == "queue"@ {
        if value == "fifo"@ {
            Ok(DvDtnParams { queue_discipline: QueueDiscipline::Fifo, ..p })
        } else if value == "lifo"@ {
            Ok(DvDtnParams { queue_discipline: QueueDiscipline::Lifo, ..p })
        } else {
            bad
        }
    } else if key == "mesh"@ {
        match size_of_text(value) {
            Some(n) => Ok(DvDtnParams { batch: BatchPolicy { mesh_hop: n, ..p.batch }, ..p }),
            None => bad,
        }
    } else if key == "lsa"@ {
        match size_of_text(value) {
            Some(n) => Ok(DvDtnParams { lsa_per_transmission: n, ..p }),
            None => bad,
        }
    } else {
        Err(SpecFault::UnknownKey(key))
    }
}

/// One setting of spray-and-wait.
pub open spec fn spray_set(p: EpidemicParams, key: Seq<char>, value: Seq<char>) -> Result<
    EpidemicParams,
    SpecFault,
> {
    if key == "copies"@ {
        match count_of_text(value) {
            Some(n) => Ok(EpidemicParams { copies: n, ..p }),
            None => Err(SpecFault::BadValue(key, value)),
        }
    } else {
        Err(SpecFault::UnknownKey(key))
    }
}

/// One setting, whichever protocol it is for.
pub open spec fn applied(p: ProtocolSpec, key: Seq<char>, value: Seq<char>) -> Result<
    ProtocolSpec,
    SpecFault,
> {
    match p {
        ProtocolSpec::DvDtn(d) => match dv_set(d, key, value) {
            Ok(d) => Ok(ProtocolSpec::DvDtn(d)),
            Err(f) => Err(f),
        },
        ProtocolSpec::Epidemic(e) => match spray_set(e, key, value) {
            Ok(e) => Ok(ProtocolSpec::Epidemic(e)),
            Err(f) => Err(f),
        },
    }
}

/// A setting as written.
pub open spec fn setting(p: ProtocolSpec, s: Seq<char>) -> Result<ProtocolSpec, SpecFault> {
    match text::place(s, '=', 0) {
        Some(at) => applied(p, s.subrange(0, at), s.subrange(at + 1, s.len() as int)),
        None => Err(SpecFault::Malformed(s)),
    }
}

/// Settings separated by commas, first to last.
pub open spec fn settings(p: ProtocolSpec, s: Seq<char>) -> Result<ProtocolSpec, SpecFault>
    decreases s.len(),
{
    proof {
        text::lemma_place(s, ',', 0);
    }
    match text::place(s, ',', 0) {
        Some(at) => match setting(p, s.subrange(0, at)) {
            Ok(q) => settings(q, s.subrange(at + 1, s.len() as int)),
            Err(f) => Err(f),
        },
        None => setting(p, s),
    }
}

/// The protocol of a name, with its default parameters.
pub open spec fn named(s: Seq<char>) -> Result<ProtocolSpec, SpecFault> {
    if s == "dv-dtn"@ {
        Ok(ProtocolSpec::DvDtn(dv_dtn::params::default_params()))
    } else if s == "epidemic"@ {
        Ok(ProtocolSpec::Epidemic(epidemic::params::default_params()))
    } else {
        Err(SpecFault::UnknownProtocol(s))
    }
}

/// Whether a combination of settings works: the ack digest needs beacons to
/// ride on.
pub open spec fn sound(p: ProtocolSpec) -> bool {
    p matches ProtocolSpec::DvDtn(d) ==> (d.ack_policy == AckPolicy::Digest ==> d.discovery
        == Discovery::Proactive)
}

/// What a line of text chooses.
pub open spec fn chosen(s: Seq<char>) -> Result<ProtocolSpec, SpecFault> {
    let r = match text::place(s, ':', 0) {
        Some(at) => match named(s.subrange(0, at)) {
            Ok(p) => settings(p, s.subrange(at + 1, s.len() as int)),
            Err(f) => Err(f),
        },
        None => named(s),
    };
    match r {
        Ok(p) => if sound(p) {
            Ok(p)
        } else {
            Err(SpecFault::DigestNeedsBeacons)
        },
        Err(f) => Err(f),
    }
}

fn read_size(v: &str) -> (r: Option<usize>)
    ensures
        r == size_of_text(v@),
{
    match text::read_number(v) {
        Some(n) => if n <= usize::MAX as u64 {
            Some(n as usize)
        } else {
            None
        },
        None => None,
    }
}

fn read_count(v: &str) -> (r: Option<u32>)
    ensures
        r == count_of_text(v@),
{
    match text::read_number(v) {
        Some(n) => if n <= u32::MAX as u64 {
            Some(n as u32)
        } else {
            None
        },
        None => None,
    }
}

fn bad_value(key: &str, value: &str) -> (r: SpecError)
    ensures
        r@ == SpecFault::BadValue(key@, value@),
{
    SpecError::BadValue(key.to_owned(), value.to_owned())
}

fn set_dv(p: DvDtnParams, key: &str, value: &str) -> (r: Result<DvDtnParams, SpecError>)
    ensures
        content(r) == dv_set(p, key@, value@),
{
    let mut q: DvDtnParams = p;
    if text::same(key, "discovery") {
        if text::same(value, "proactive") {
            q.discovery = Discovery::Proactive;
        } else if text::same(value, "reactive") {
            q.discovery = Discovery::Reactive;
        } else if text::same(value, "link-state") {
            q.discovery = Discovery::LinkState;
        } else {
            return Err(bad_value(key, value));
        }
    } else if text::same(key, "ack") {
        if text::same(value, "source-routed") {
            q.ack_policy = AckPolicy::SourceRouted;
        } else if text::same(value, "digest") {
            q.ack_policy = AckPolicy::Digest;
        } else {
            return Err(bad_value(key, value));
        }
    } else if text::same(key, "reply") {
        if text::same(value, "intermediate") {
            q.reply_policy = ReplyPolicy::Intermediate;
        } else if text::same(value, "tower") {
            q.reply_policy = ReplyPolicy::TowerAdjacent;
        } else {
            return Err(bad_value(key, value));
        }
    } else if text::same(key, "overhear") {
        if text::same(value, "on") {
            q.reply_overhearing = ReplyOverhearing::On;
        } else if text::same(value, "off") {
            q.reply_overhearing = ReplyOverhearing::Off;
        } else {
            return Err(bad_value(key, value));
        }
    } else if text::same(key, "ring") {
        if text::same(value, "max") {
            q.ring_search = RingSearch::Max;
        } else if text::same(value, "expanding") {
            q.ring_search = RingSearch::Expanding;
        } else {
            return Err(bad_value(key, value));
        }
    } else if text::same(key, "metric") {
        if text::same(value, "freshest") {
            q.metric = Metric::FreshestFirst;
        } else if text::same(value, "nearest") {
            q.metric = Metric::NearestFirst;
        } else {
            return Err(bad_value(key, value));
        }
    } else if text::same(key, "queue") {
        if text::same(value, "fifo") {
            q.queue_discipline = QueueDiscipline::Fifo;
        } else if text::same(value, "lifo") {
            q.queue_discipline = QueueDiscipline::Lifo;
        } else {
            return Err(bad_value(key, value));
        }
    } else if text::same(key, "mesh") {
        match read_size(value) {
            Some(n) => {
                q.batch.mesh_hop = n;
            },
            None => {
                return Err(bad_value(key, value));
            },
        }
    } else if text::same(key, "lsa") {
        match read_size(value) {
            Some(n) => {
                q.lsa_per_transmission = n;
            },
            None => {
                return Err(bad_value(key, value));
            },
        }
    } else {
        return Err(SpecError::UnknownKey(key.to_owned()));
    }
    Ok(q)
}

fn set_spray(p: EpidemicParams, key: &str, value: &str) -> (r: Result<EpidemicParams, SpecError>)
    ensures
        content(r) == spray_set(p, key@, value@),
{
    if text::same(key, "copies") {
        match read_count(value) {
            Some(n) => Ok(EpidemicParams { copies: n, ..p }),
            None => Err(bad_value(key, value)),
        }
    } else {
        Err(SpecError::UnknownKey(key.to_owned()))
    }
}

fn apply(p: ProtocolSpec, key: &str, value: &str) -> (r: Result<ProtocolSpec, SpecError>)
    ensures
        content(r) == applied(p, key@, value@),
{
    match p {
        ProtocolSpec::DvDtn(d) => match set_dv(d, key, value) {
            Ok(d) => Ok(ProtocolSpec::DvDtn(d)),
            Err(e) => Err(e),
        },
        ProtocolSpec::Epidemic(x) => match set_spray(x, key, value) {
            Ok(x) => Ok(ProtocolSpec::Epidemic(x)),
            Err(e) => Err(e),
        },
    }
}

fn read_setting(p: ProtocolSpec, s: &str) -> (r: Result<ProtocolSpec, SpecError>)
    ensures
        content(r) == setting(p, s@),
{
    match text::find(s, '=') {
        Some(at) => {
            let n: usize = s.unicode_len();
            apply(p, s.substring_char(0, at), s.substring_char(at + 1, n))
        },
        None => Err(SpecError::Malformed(s.to_owned())),
    }
}

fn read_settings(p: ProtocolSpec, s: &str) -> (r: Result<ProtocolSpec, SpecError>)
    ensures
        content(r) == settings(p, s@),
    decreases s@.len(),
{
    match text::find(s, ',') {
        Some(at) => {
            let n: usize = s.unicode_len();
            match read_setting(p, s.substring_char(0, at)) {
                Ok(q) => read_settings(q, s.substring_char(at + 1, n)),
                Err(e) => Err(e),
            }
        },
        None => read_setting(p, s),
    }
}

impl ProtocolSpec {
    fn by_name(s: &str) -> (r: Result<ProtocolSpec, SpecError>)
        ensures
            content(r) == named(s@),
    {
        if text::same(s, "dv-dtn") {
            Ok(ProtocolSpec::DvDtn(DvDtnParams::default()))
        } else if text::same(s, "epidemic") {
            Ok(ProtocolSpec::Epidemic(EpidemicParams::default()))
        } else {
            Err(SpecError::UnknownProtocol(s.to_owned()))
        }
    }

    /// Reads a choice of protocol.
    pub fn read(s: &str) -> (r: Result<ProtocolSpec, SpecError>)
        ensures
            content(r) == chosen(s@),
    {
        let p: Result<ProtocolSpec, SpecError> = match text::find(s, ':') {
            Some(at) => {
                let n: usize = s.unicode_len();
                match ProtocolSpec::by_name(s.substring_char(0, at)) {
                    Ok(p) => read_settings(p, s.substring_char(at + 1, n)),
                    Err(e) => Err(e),
                }
            },
            None => ProtocolSpec::by_name(s),
        };
        match p {
            Ok(ProtocolSpec::DvDtn(d)) => {
                if d.ack_policy == AckPolicy::Digest && d.discovery != Discovery::Proactive {
                    Err(SpecError::DigestNeedsBeacons)
                } else {
                    Ok(ProtocolSpec::DvDtn(d))
                }
            },
            Ok(ProtocolSpec::Epidemic(x)) => Ok(ProtocolSpec::Epidemic(x)),
            Err(e) => Err(e),
        }
    }
}

impl FromStr for ProtocolSpec {
    type Err = String;

    fn from_str(s: &str) -> (r: Result<ProtocolSpec, String>)
        ensures
            match r {
                Ok(p) => chosen(s@) == Ok::<ProtocolSpec, SpecFault>(p),
                Err(e) => chosen(s@) matches Err(f) && e@ == fault_text(f),
            },
    {
        match ProtocolSpec::read(s) {
            Ok(p) => Ok(p),
            Err(e) => Err(e.message()),
        }
    }
}

/// Every choice that is accepted works: none pairs the beacon-borne ack digest
/// with a discovery that sends no tower beacons.
pub proof fn no_digest_without_beacons(s: Seq<char>)
    ensures
        chosen(s) matches Ok(p) ==> sound(p),
{
}

/// A setting of distance-vector delivery touches what it names and nothing else.
pub proof fn a_setting_touches_only_what_it_names(
    p: DvDtnParams,
    key: Seq<char>,
    value: Seq<char>,
)
    ensures
        dv_set(p, key, value) matches Ok(q) ==> {
            &&& key != "discovery"@ ==> q.discovery == p.discovery
            &&& key != "ack"@ ==> q.ack_policy == p.ack_policy
            &&& key != "reply"@ ==> q.reply_policy == p.reply_policy
            &&& key != "overhear"@ ==> q.reply_overhearing == p.reply_overhearing
            &&& key != "ring"@ ==> q.ring_search == p.ring_search
            &&& key != "metric"@ ==> q.metric == p.metric
            &&& key != "queue"@ ==> q.queue_discipline == p.queue_discipline
            &&& key != "mesh"@ ==> q.batch == p.batch
            &&& key == "mesh"@ ==> q.batch.tower_contact == p.batch.tower_contact
            &&& key != "lsa"@ ==> q.lsa_per_transmission == p.lsa_per_transmission
            &&& q == (DvDtnParams {
                discovery: q.discovery,
                ack_policy: q.ack_policy,
                reply_policy: q.reply_policy,
                reply_overhearing: q.reply_overhearing,
                ring_search: q.ring_search,
                metric: q.metric,
                queue_discipline: q.queue_discipline,
                batch: q.batch,
                lsa_per_transmission: q.lsa_per_transmission,
                ..p
            })
        },
{
    reveal_strlit("mesh");
    reveal_strlit("discovery");
    reveal_strlit("ack");
    reveal_strlit("reply");
    reveal_strlit("overhear");
    reveal_strlit("ring");
    reveal_strlit("metric");
    reveal_strlit("queue");
    reveal_strlit("lsa");
    assert("mesh"@[0] == 'm' && "mesh"@[1] == 'e' && "mesh"@[2] == 's');
    assert("metric"@[2] == 't');
    assert("discovery"@[0] == 'd' && "ack"@[0] == 'a' && "reply"@[0] == 'r');
    assert("overhear"@[0] == 'o' && "ring"@[0] == 'r' && "queue"@[0] == 'q' && "lsa"@[0] == 'l');
}

/// Settings apply one after the other: what a list of them followed by another comes
/// to is what the other comes to after the list, and the first fault there is counts.
pub proof fn settings_apply_in_order(p: ProtocolSpec, a: Seq<char>, b: Seq<char>)
    ensures
        settings(p, a + seq![','] + b) == (match settings(p, a) {
            Ok(q) => settings(q, b),
            Err(f) => Err(f),
        }),
    decreases a.len(),
{
    let s = a + seq![','] + b;
    text::lemma_place(a, ',', 0);
    match text::place(a, ',', 0) {
        Some(at) => {
            lemma_first_comma(s, a, at, 0);
            assert(s.subrange(0, at) =~= a.subrange(0, at));
            let rest = a.subrange(at + 1, a.len() as int);
            assert(s.subrange(at + 1, s.len() as int) =~= rest + seq![','] + b);
            if let Ok(q) = setting(p, a.subrange(0, at)) {
                settings_apply_in_order(q, rest, b);
            }
        },
        None => {
            lemma_no_comma(s, a, 0);
            assert(s.subrange(0, a.len() as int) =~= a);
            assert(s.subrange(a.len() as int + 1, s.len() as int) =~= b);
        },
    }
}

proof fn lemma_first_comma(s: Seq<char>, a: Seq<char>, at: int, k: int)
    requires
        0 <= k <= at < a.len() <= s.len(),
        forall|x: int| 0 <= x < a.len() ==> #[trigger] s[x] == a[x],
        text::place(a, ',', k) == Some(at),
    ensures
        text::place(s, ',', k) == Some(at),
    decreases at - k,
{
    assert(s[k] == a[k]);
    if a[k] != ',' {
        text::lemma_place(a, ',', k + 1);
        lemma_first_comma(s, a, at, k + 1);
    }
}

proof fn lemma_no_comma(s: Seq<char>, a: Seq<char>, k: int)
    requires
        0 <= k <= a.len() < s.len(),
        forall|x: int| 0 <= x < a.len() ==> #[trigger] s[x] == a[x],
        s[a.len() as int] == ',',
        text::place(a, ',', k) is None,
    ensures
        text::place(s, ',', k) == Some(a.len() as int),
    decreases a.len() - k,
{
    if k < a.len() {
        assert(s[k] == a[k]);
        lemma_no_comma(s, a, k + 1);
    }
}

} // verus!
