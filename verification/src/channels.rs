//! The Mirakurun channel list and the tuning spaces built from it.
use vstd::prelude::*;
use crate::config::Config;
use crate::json::{as_u64, json_document, member, member_ref, parse_json, text_at, text_or_empty, u64_at, JsonValue};
use crate::util::SPACE_NUM;

verus! {

/// What a [`ChannelEntry`] holds, as plain values.
pub struct EntryModel {
    pub type_: Seq<char>,
    pub channel: Seq<char>,
    pub name: Seq<char>,
    pub service_id: Option<u64>,
}

/// One channel (or, with service splitting, one service) of the list.
#[derive(Debug, Clone)]
pub struct ChannelEntry {
    pub type_: String,
    pub channel: String,
    pub name: String,
    pub service_id: Option<u64>,
}

impl View for ChannelEntry {
    type V = EntryModel;

    open spec fn view(&self) -> EntryModel {
        EntryModel {
            type_: self.type_@,
            channel: self.channel@,
            name: self.name@,
            service_id: self.service_id,
        }
    }
}

/// The channel list with its tuning spaces, as plain values.
pub struct ChannelsModel {
    pub entries: Seq<EntryModel>,
    /// The type name of each tuning space.
    pub types: Seq<Seq<char>>,
    /// The index in `entries` at which each tuning space starts.
    pub bases: Seq<int>,
}

/// The state of the scan that cuts the list into tuning spaces.
pub struct SpaceScan {
    pub types: Seq<Seq<char>>,
    pub bases: Seq<int>,
    pub stopped: bool,
}

/// One step of the scan, over the entry at index `i` of type `t`: a type
/// that differs from the last space's opens a new space, unless
/// `SPACE_NUM - 1` spaces exist already, which ends the scan.
pub open spec fn scan_step(acc: SpaceScan, t: Seq<char>, i: int) -> SpaceScan {
    if acc.stopped {
        acc
    } else if acc.types.len() == 0 || acc.types.last() != t {
        if acc.types.len() >= SPACE_NUM - 1 {
            SpaceScan { types: acc.types, bases: acc.bases, stopped: true }
        } else {
            SpaceScan { types: acc.types.push(t), bases: acc.bases.push(i), stopped: false }
        }
    } else {
        acc
    }
}

/// The scan over the first `n` entry types.
pub open spec fn scan_spaces(ts: Seq<Seq<char>>, n: nat) -> SpaceScan
    decreases n,
{
    if n == 0 {
        SpaceScan { types: Seq::empty(), bases: Seq::empty(), stopped: false }
    } else {
        scan_step(scan_spaces(ts, (n - 1) as nat), ts[n - 1], n - 1)
    }
}

/// The type names of a list of entries.
pub open spec fn entry_types(es: Seq<EntryModel>) -> Seq<Seq<char>> {
    es.map_values(|e: EntryModel| e.type_)
}

/// The channel table built from a list of entries.
pub open spec fn table_of(es: Seq<EntryModel>) -> ChannelsModel {
    let s = scan_spaces(entry_types(es), es.len());
    ChannelsModel { entries: es, types: s.types, bases: s.bases }
}

/// The entry that space `space`, channel `channel` names: the entry
/// `channel` places after the start of the space, where a space other than
/// the last also holds no more channels than it has entries.
pub open spec fn resolve(m: ChannelsModel, space: int, channel: int) -> Option<int> {
    if space >= m.types.len() {
        None
    } else if space < m.types.len() - 1 && channel >= m.bases[space + 1] - m.bases[space] {
        None
    } else if channel + m.bases[space] >= m.entries.len() {
        None
    } else {
        Some(channel + m.bases[space])
    }
}

/// The entry read from one item of the list: with service splitting the
/// item is a service whose `channel` member holds the type and channel.
pub open spec fn entry_of(item: JsonValue, split: bool) -> EntryModel {
    if split {
        let ch = member(item, "channel"@);
        EntryModel {
            type_: text_or_empty(member(ch, "type"@)),
            channel: text_or_empty(member(ch, "channel"@)),
            name: text_or_empty(member(item, "name"@)),
            service_id: as_u64(member(item, "serviceId"@)),
        }
    } else {
        EntryModel {
            type_: text_or_empty(member(item, "type"@)),
            channel: text_or_empty(member(item, "channel"@)),
            name: text_or_empty(member(item, "name"@)),
            service_id: None,
        }
    }
}

/// The entries of a channel list document: one per item of a top-level
/// array, none for any other document or for none.
pub open spec fn entries_of(doc: Option<JsonValue>, split: bool) -> Seq<EntryModel> {
    match doc {
        Some(JsonValue::Array(items)) => items@.map_values(|it: JsonValue| entry_of(it, split)),
        _ => Seq::empty(),
    }
}

/// The views of a sequence of strings.
pub open spec fn strings_view(v: Seq<String>) -> Seq<Seq<char>> {
    v.map_values(|s: String| s@)
}

/// The values of a sequence of indices.
pub open spec fn indices_view(v: Seq<usize>) -> Seq<int> {
    v.map_values(|b: usize| b as int)
}

/// The channel list and the tuning spaces derived from it.
#[derive(Debug)]
pub struct Channels {
    entries: Vec<ChannelEntry>,
    types: Vec<String>,
    bases: Vec<usize>,
}

impl View for Channels {
    type V = ChannelsModel;

    closed spec fn view(&self) -> ChannelsModel {
        ChannelsModel {
            entries: self.entries@.map_values(|e: ChannelEntry| e@),
            types: strings_view(self.types@),
            bases: indices_view(self.bases@),
        }
    }
}

impl Channels {
    #[verifier::type_invariant]
    closed spec fn well_formed(self) -> bool {
        self@ == table_of(self@.entries)
    }

    /// Whether the list is empty (it could not be fetched).
    pub fn is_empty(&self) -> (r: bool)
        ensures
            r == (self@.entries.len() == 0),
    {
        self.entries.len() == 0
    }

    /// The API path that lists the channels, or the services when
    /// `cfg.service_split == 1`.
    pub fn list_path(cfg: &Config) -> (r: &'static str)
        ensures
            r@ == (if cfg.service_split == 1 {
                "/api/services"@
            } else {
                "/api/channels"@
            }),
    {
        if cfg.service_split == 1 {
            "/api/services"
        } else {
            "/api/channels"
        }
    }

    /// The list for one reply of the channel (or service) list API: `body`
    /// is read as JSON, and each item of a top-level array becomes an entry.
    pub fn from_response(cfg: &Config, body: &str) -> (r: Channels)
        ensures
            r@ == table_of(entries_of(json_document(body@), cfg.service_split == 1)),
    {
        let doc = parse_json(body);
        Channels::from_json(cfg, &doc)
    }

    /// The list for a channel list document: each item of a top-level array
    /// becomes an entry, with service splitting (`cfg.service_split == 1`)
    /// read as a service; any other document gives the empty list.
    pub fn from_json(cfg: &Config, doc: &Option<JsonValue>) -> (r: Channels)
        ensures
            r@ == table_of(entries_of(*doc, cfg.service_split == 1)),
    {
        let split = cfg.service_split == 1;
        let mut entries: Vec<ChannelEntry> = Vec::new();
        match doc {
            Some(JsonValue::Array(items)) => {
                let mut i: usize = 0;
                while i < items.len()
                    invariant
                        i <= items.len(),
                        entries@.map_values(|e: ChannelEntry| e@) =~= items@.subrange(
                            0,
                            i as int,
                        ).map_values(|it: JsonValue| entry_of(it, split)),
                    decreases items.len() - i,
                {
                    let e = entry_from_item(&items[i], split);
                    let ghost before = entries@;
                    entries.push(e);
                    assert(items@.subrange(0, i + 1) =~= items@.subrange(0, i as int).push(
                        items@[i as int],
                    ));
                    assert(entries@ =~= before.push(e));
                    assert(entries@.map_values(|e: ChannelEntry| e@) =~= before.map_values(
                        |e: ChannelEntry| e@,
                    ).push(e@));
                    i += 1;
                    assert(entries@.map_values(|e: ChannelEntry| e@) =~= items@.subrange(
                        0,
                        i as int,
                    ).map_values(|it: JsonValue| entry_of(it, split)));
                }
                assert(items@.subrange(0, items.len() as int) =~= items@);
            },
            _ => {},
        }
        assert(entries@.map_values(|e: ChannelEntry| e@) =~= entries_of(*doc, split));
        let (types, bases) = build_spaces(&entries);
        Channels { entries, types, bases }
    }

    /// The name of tuning space `space`, if there is such a space.
    pub fn enum_tuning_space(&self, space: u32) -> (r: Option<&str>)
        ensures
            match r {
                Some(s) => space < self@.types.len() && s@ == self@.types[space as int],
                None => space >= self@.types.len(),
            },
    {
        let space = space as usize;
        if space < self.types.len() {
            Some(self.types[space].as_str())
        } else {
            None
        }
    }

    /// The name of channel `channel` of tuning space `space`, if it names
    /// an entry.
    pub fn enum_channel_name(&self, space: u32, channel: u32) -> (r: Option<&str>)
        ensures
            match resolve(self@, space as int, channel as int) {
                Some(i) => r is Some && r->0@ == self@.entries[i].name,
                None => r is None,
            },
    {
        match self.resolve_index(space, channel) {
            Some(idx) => Some(self.entries[idx].name.as_str()),
            None => None,
        }
    }

    /// The entry of channel `channel` of tuning space `space`, if any.
    pub fn entry(&self, space: u32, channel: u32) -> (r: Option<&ChannelEntry>)
        ensures
            match resolve(self@, space as int, channel as int) {
                Some(i) => r is Some && r->0@ == self@.entries[i],
                None => r is None,
            },
    {
        match self.resolve_index(space, channel) {
            Some(idx) => Some(&self.entries[idx]),
            None => None,
        }
    }

    /// The index in the list of channel `channel` of tuning space `space`.
    pub fn resolve_index(&self, space: u32, channel: u32) -> (r: Option<usize>)
        ensures
            match r {
                Some(i) => resolve(self@, space as int, channel as int) == Some(i as int),
                None => resolve(self@, space as int, channel as int) is None,
            },
    {
        proof {
            use_type_invariant(self);
            lemma_table_shape(self@.entries);
        }
        let space = space as usize;
        if space >= self.types.len() {
            return None;
        }
        assert(self@.bases[space as int] == self.bases@[space as int] as int);
        assert(self@.entries.len() == self.entries@.len());
        if space < self.max_type() {
            assert(self@.bases[space as int] < self@.bases[space + 1]);
            assert(self@.bases[space + 1] == self.bases@[space + 1] as int);
            let width = self.bases[space + 1] - self.bases[space];
            if channel as usize >= width {
                return None;
            }
        }
        match (channel as usize).checked_add(self.bases[space]) {
            Some(idx) => {
                if idx >= self.entries.len() {
                    None
                } else {
                    Some(idx)
                }
            },
            None => {
                let n = self.entries.len();
                assert(n as int == self@.entries.len());
                None
            },
        }
    }

    /// The index of the last tuning space, 0 when there is none.
    fn max_type(&self) -> (r: usize)
        ensures
            r == (if self@.types.len() == 0 { 0 } else { self@.types.len() - 1 }),
    {
        self.types.len().saturating_sub(1)
    }
}

/// What every scan state holds after `n` entry types `ts`: as many starts
/// as names, at most `SPACE_NUM - 1` spaces, starts in increasing order
/// from 0, each space named by the type of its first entry, neighbouring
/// spaces of different types, each space starting where the type
/// changes, every space but the last a run of entries
/// of its own type, and the last one too while the scan has not stopped.
pub open spec fn scan_shape(s: SpaceScan, ts: Seq<Seq<char>>, n: int) -> bool {
    &&& s.types.len() == s.bases.len()
    &&& s.types.len() <= SPACE_NUM - 1
    &&& n > 0 ==> s.types.len() > 0 && s.bases[0] == 0
    &&& n == 0 ==> s.types.len() == 0
    &&& forall|k: int|
        0 <= k < s.bases.len() ==> 0 <= #[trigger] s.bases[k] < n && s.types[k] == ts[s.bases[k]]
    &&& forall|k: int, j: int|
        0 <= k < j < s.bases.len() ==> #[trigger] s.bases[k] < #[trigger] s.bases[j]
    &&& forall|k: int| 0 <= k < s.types.len() - 1 ==> #[trigger] s.types[k] != s.types[k + 1]
    &&& forall|k: int| 0 < k < s.bases.len() ==> ts[#[trigger] s.bases[k] - 1] != s.types[k]
    &&& forall|k: int, i: int|
        0 <= k < s.bases.len() - 1 && s.bases[k] <= i < s.bases[k + 1] ==> #[trigger] ts[i]
            == #[trigger] s.types[k]
    &&& !s.stopped ==> forall|i: int|
        s.bases.len() > 0 && s.bases[s.bases.len() - 1] <= i < n ==> #[trigger] ts[i]
            == s.types[s.types.len() - 1]
}

/// The scan keeps [`scan_shape`] at every step.
proof fn lemma_scan_shape(ts: Seq<Seq<char>>, n: nat)
    requires
        n <= ts.len(),
    ensures
        scan_shape(scan_spaces(ts, n), ts, n as int),
    decreases n,
{
    if n > 0 {
        lemma_scan_shape(ts, (n - 1) as nat);
        let p = scan_spaces(ts, (n - 1) as nat);
        let s = scan_spaces(ts, n);
        let t = ts[n - 1];
        if !p.stopped && (p.types.len() == 0 || p.types.last() != t) && p.types.len()
            < SPACE_NUM - 1 {
            assert(s.types == p.types.push(t));
            assert(s.bases == p.bases.push(n - 1));
            if p.types.len() > 0 {
                assert(ts[n - 2] == p.types[p.types.len() - 1]);
            }
            assert forall|k: int| 0 < k < s.bases.len() implies ts[#[trigger] s.bases[k] - 1]
                != s.types[k] by {
                if k < p.bases.len() {
                    assert(s.bases[k] == p.bases[k]);
                    assert(s.types[k] == p.types[k]);
                }
            }
            assert forall|k: int, i: int|
                0 <= k < s.bases.len() - 1 && s.bases[k] <= i < s.bases[k + 1] implies #[trigger] ts[i]
                == #[trigger] s.types[k] by {
                if k == s.bases.len() - 2 {
                    assert(s.types[k] == p.types[p.types.len() - 1]);
                } else {
                    assert(s.types[k] == p.types[k]);
                    assert(s.bases[k + 1] == p.bases[k + 1]);
                }
            }
        }
    }
}

/// Every channel table has the shape [`scan_shape`] describes: each tuning
/// space starts at the entry whose type it is named after, the starts
/// increase from 0, there are at most `SPACE_NUM - 1` spaces, neighbouring
/// spaces differ in type, the entry before each space's first one has
/// another type, and every space but the last holds only entries of its
/// own type.
pub proof fn lemma_table_shape(es: Seq<EntryModel>)
    ensures
        scan_shape(
            scan_spaces(entry_types(es), es.len()),
            entry_types(es),
            es.len() as int,
        ),
        table_of(es).types == scan_spaces(entry_types(es), es.len()).types,
        table_of(es).bases == scan_spaces(entry_types(es), es.len()).bases,
{
    lemma_scan_shape(entry_types(es), es.len());
}

/// Channel `channel` of space `space` is the entry `channel` places after
/// the space's first one; within every space but the last it has the
/// space's type, and channel 0 always does.
pub proof fn lemma_resolve_in_space(es: Seq<EntryModel>, space: int, channel: int)
    requires
        0 <= space,
        0 <= channel,
        resolve(table_of(es), space, channel) is Some,
    ensures
        ({
            let m = table_of(es);
            let i = resolve(m, space, channel)->0;
            &&& i == m.bases[space] + channel
            &&& 0 <= i < es.len()
            &&& (space < m.types.len() - 1 || channel == 0) ==> es[i].type_ == m.types[space]
        }),
{
    lemma_table_shape(es);
    let m = table_of(es);
    let ts = entry_types(es);
    let i = m.bases[space] + channel;
    assert(ts[i] == es[i].type_);
    if space < m.types.len() - 1 {
        assert(m.bases[space] <= i < m.bases[space + 1]);
        assert(ts[i] == m.types[space]);
    }
}

/// Two (space, channel) pairs that name an entry name different entries.
pub proof fn lemma_resolve_injective(
    es: Seq<EntryModel>,
    s1: int,
    c1: int,
    s2: int,
    c2: int,
)
    requires
        0 <= s1,
        0 <= c1,
        0 <= s2,
        0 <= c2,
        resolve(table_of(es), s1, c1) is Some,
        resolve(table_of(es), s1, c1) == resolve(table_of(es), s2, c2),
    ensures
        s1 == s2,
        c1 == c2,
{
    lemma_table_shape(es);
    let m = table_of(es);
    if s1 < s2 {
        assert(m.bases[s1 + 1] <= m.bases[s2]) by {
            if s1 + 1 < s2 {
                assert(m.bases[s1 + 1] < m.bases[s2]);
            }
        }
    } else if s2 < s1 {
        assert(m.bases[s2 + 1] <= m.bases[s1]) by {
            if s2 + 1 < s1 {
                assert(m.bases[s2 + 1] < m.bases[s1]);
            }
        }
    }
}

/// The space holding entry `i`: the last one that starts at or before it.
proof fn lemma_space_holding(m: ChannelsModel, ts: Seq<Seq<char>>, n: int, i: int, k: int) -> (s: int)
    requires
        scan_shape(SpaceScan { types: m.types, bases: m.bases, stopped: true }, ts, n),
        0 <= i < n,
        0 <= k < m.bases.len(),
        k == m.bases.len() - 1 || i < m.bases[k + 1],
    ensures
        0 <= s <= k,
        m.bases[s] <= i,
        s == m.bases.len() - 1 || i < m.bases[s + 1],
    decreases k,
{
    if m.bases[k] <= i {
        k
    } else {
        lemma_space_holding(m, ts, n, i, k - 1)
    }
}

/// Every entry of the list is named by some (space, channel) pair.
pub proof fn lemma_resolve_covers(es: Seq<EntryModel>, i: int)
    requires
        0 <= i < es.len(),
    ensures
        exists|s: int, c: int|
            0 <= s && 0 <= c && #[trigger] resolve(table_of(es), s, c) == Some(i),
{
    lemma_table_shape(es);
    let m = table_of(es);
    let ts = entry_types(es);
    let s = lemma_space_holding(m, ts, es.len() as int, i, m.bases.len() - 1);
    let c = i - m.bases[s];
    assert(resolve(m, s, c) == Some(i));
}

/// Once the scan has stopped, later entries change nothing.
proof fn lemma_scan_stays_stopped(ts: Seq<Seq<char>>, k: nat, n: nat)
    requires
        k <= n <= ts.len(),
        scan_spaces(ts, k).stopped,
    ensures
        scan_spaces(ts, n) == scan_spaces(ts, k),
    decreases n - k,
{
    if n > k {
        lemma_scan_stays_stopped(ts, k, (n - 1) as nat);
    }
}

/// Reads one item of the list (see [`entry_of`]).
fn entry_from_item(item: &JsonValue, split: bool) -> (r: ChannelEntry)
    ensures
        r@ == entry_of(*item, split),
{
    let it = Some(item);
    if split {
        let ch = member_ref(it, "channel");
        ChannelEntry {
            type_: text_at(member_ref(ch, "type")),
            channel: text_at(member_ref(ch, "channel")),
            name: text_at(member_ref(it, "name")),
            service_id: u64_at(member_ref(it, "serviceId")),
        }
    } else {
        ChannelEntry {
            type_: text_at(member_ref(it, "type")),
            channel: text_at(member_ref(it, "channel")),
            name: text_at(member_ref(it, "name")),
            service_id: None,
        }
    }
}

/// Cuts the list into tuning spaces: a new space starts wherever the type
/// differs from the previous entry's, for at most `SPACE_NUM - 1` spaces.
pub fn build_spaces(entries: &Vec<ChannelEntry>) -> (r: (Vec<String>, Vec<usize>))
    ensures
        strings_view(r.0@) == table_of(entries@.map_values(|e: ChannelEntry| e@)).types,
        indices_view(r.1@) == table_of(entries@.map_values(|e: ChannelEntry| e@)).bases,
{
    let ghost es = entries@.map_values(|e: ChannelEntry| e@);
    let ghost ts = entry_types(es);
    let mut types: Vec<String> = Vec::new();
    let mut bases: Vec<usize> = Vec::new();
    let mut i: usize = 0;
    assert(strings_view(types@) =~= Seq::<Seq<char>>::empty());
    assert(indices_view(bases@) =~= Seq::<int>::empty());
    while i < entries.len()
        invariant_except_break
            i <= entries.len(),
            ts.len() == entries.len(),
            forall|j: int| 0 <= j < ts.len() ==> #[trigger] ts[j] == entries@[j].type_@,
            scan_spaces(ts, i as nat) == (SpaceScan {
                types: strings_view(types@),
                bases: indices_view(bases@),
                stopped: false,
            }),
        ensures
            scan_spaces(ts, ts.len()).types == strings_view(types@),
            scan_spaces(ts, ts.len()).bases == indices_view(bases@),
        decreases entries.len() - i,
    {
        let fresh = if types.len() == 0 {
            true
        } else {
            !(types[types.len() - 1] == entries[i].type_)
        };
        if fresh {
            if types.len() >= SPACE_NUM - 1 {
                proof {
                    lemma_scan_stays_stopped(ts, (i + 1) as nat, ts.len());
                }
                break;
            }
            let ghost before = types@;
            types.push(entries[i].type_.clone());
            bases.push(i);
            assert(strings_view(types@) =~= strings_view(before).push(ts[i as int]));
        }
        i += 1;
        assert(strings_view(types@) =~= scan_spaces(ts, i as nat).types);
        assert(indices_view(bases@) =~= scan_spaces(ts, i as nat).bases);
    }
    (types, bases)
}

impl Default for Channels {
    fn default() -> (r: Channels)
        ensures
            r@.entries.len() == 0,
            r@.types.len() == 0,
    {
        let entries: Vec<ChannelEntry> = Vec::new();
        let types: Vec<String> = Vec::new();
        let bases: Vec<usize> = Vec::new();
        assert(entries@.map_values(|e: ChannelEntry| e@) =~= Seq::<EntryModel>::empty());
        assert(strings_view(types@) =~= Seq::<Seq<char>>::empty());
        assert(indices_view(bases@) =~= Seq::<int>::empty());
        Channels { entries, types, bases }
    }
}

} // verus!
