//! The interest axis: what a store's retaining followers hold back, and what
//! is lost where a size budget overrides them.
//!
//! Every way of not knowing lands on one instruction, to drop nothing by
//! interest. Interest is additive, so age and size still apply: dropping late
//! is the harmless direction.

use crate::bark::{opt_str, opt_string, Retention};
use crate::cursor::{consumed, consumed_prefix};
use crate::declaration::Declaration;
use crate::forests::{check_name, is_name};
use crate::format::ChunkRecord;
use crate::text::{decimal, number_text, same, text};
use vstd::prelude::*;
use vstd::string::StringExecFns;

verus! {

/// What a store's retaining followers hold back, as a retention tick needs it.
#[derive(Clone, Debug, PartialEq, Eq)]
pub struct Interest {
    /// Chunks numbered strictly below this are consumed by every retaining
    /// follower, and may be dropped. Nothing means that none may, on this
    /// axis only.
    pub floor: Option<u64>,
    /// The retaining follower whose position is the floor: the one to name
    /// when a size budget overrides it.
    pub holder: Option<String>,
    /// That follower's position; nothing where it has never run, and therefore
    /// holds everything.
    pub holder_at: Option<u64>,
    /// How many retaining followers were considered.
    pub retaining: usize,
    /// Whether the registry could not be read, and the axis holds everything
    /// as a consequence, rather than because nothing retains this store.
    pub blind: bool,
}

/// What an interest is.
pub struct InterestModel {
    pub floor: Option<u64>,
    pub holder: Option<Seq<char>>,
    pub holder_at: Option<u64>,
    pub retaining: nat,
    pub blind: bool,
}

impl View for Interest {
    type V = InterestModel;

    open spec fn view(&self) -> InterestModel {
        InterestModel {
            floor: self.floor,
            holder: opt_string(self.holder),
            holder_at: self.holder_at,
            retaining: self.retaining as nat,
            blind: self.blind,
        }
    }
}

/// Nothing retains the store.
pub open spec fn no_interest() -> InterestModel {
    InterestModel { floor: None, holder: None, holder_at: None, retaining: 0, blind: false }
}

impl Default for Interest {
    fn default() -> (r: Interest)
        ensures
            r@ == no_interest(),
    {
        Interest { floor: None, holder: None, holder_at: None, retaining: 0, blind: false }
    }
}

impl Interest {
    /// How many head chunks may be dropped by interest alone: the prefix that
    /// a cursor standing at the floor calls consumed.
    pub fn droppable(&self, records: &[ChunkRecord]) -> (k: usize)
        ensures
            k == consumed(records@, self.floor),
    {
        consumed_prefix(records, self.floor)
    }
}

// -------------------------------------------------------------- the registry

/// Where a follower stands in a store, by the store's identity: the chunk it
/// has consumed up to.
#[derive(Clone, Debug, PartialEq, Eq)]
pub struct StoreChunk {
    pub id: String,
    pub chunk: Option<u64>,
}

/// The chunk that a follower has consumed a store up to, as it was said last;
/// nothing where the store was never read.
pub open spec fn chunk_at(at: Seq<StoreChunk>, id: Seq<char>) -> Option<u64>
    decreases at.len(),
{
    if at.len() == 0 {
        None
    } else if at.last().id@ == id {
        at.last().chunk
    } else {
        chunk_at(at.drop_last(), id)
    }
}

fn find_chunk(at: &Vec<StoreChunk>, id: &str) -> (r: Option<u64>)
    ensures
        r == chunk_at(at@, id@),
{
    let mut n: usize = at.len();
    assert(at@.take(n as int) =~= at@);
    while n > 0
        invariant
            n <= at@.len(),
            chunk_at(at@.take(n as int), id@) == chunk_at(at@, id@),
        decreases n,
    {
        proof {
            assert(at@.take(n as int).drop_last() =~= at@.take(n - 1));
        }
        if same(at[n - 1].id.as_str(), id) {
            return at[n - 1].chunk;
        }
        n = n - 1;
    }
    None
}

/// What a follower's directory records of where it stands.
#[derive(Clone, Debug, PartialEq, Eq)]
pub enum Recorded {
    /// A place per store, from its positions.
    Positions(Vec<StoreChunk>),
    PositionsUnreadable,
    /// No positions, and a cursor in the one store that an older declaration
    /// names, with the chunk it stands in.
    Cursor(Option<u64>),
    /// Neither: it has never run.
    Nothing,
    CursorUnreadable,
}

/// Where a follower stands in each store it has read. A cursor belongs to the
/// one store that the declaration names, if it names one. Nothing where its
/// places could not be read, which is not a place.
pub fn positions_of(recorded: Recorded, anchor: Option<&str>) -> (r: Option<Vec<StoreChunk>>)
    ensures
        match recorded {
            Recorded::Positions(v) => r is Some && r->Some_0@ == v@,
            Recorded::PositionsUnreadable | Recorded::CursorUnreadable => r is None,
            Recorded::Cursor(seq) => r is Some && (match anchor {
                Some(id) => r->Some_0@.len() == 1 && r->Some_0@[0].id@ == id@
                    && r->Some_0@[0].chunk == seq,
                None => r->Some_0@.len() == 0,
            }),
            Recorded::Nothing => r is Some && r->Some_0@.len() == 0,
        },
        r is None <==> recorded is PositionsUnreadable || recorded is CursorUnreadable,
{
    match recorded {
        Recorded::Positions(v) => Some(v),
        Recorded::PositionsUnreadable => None,
        Recorded::CursorUnreadable => None,
        Recorded::Nothing => Some(Vec::new()),
        Recorded::Cursor(seq) => {
            let mut at: Vec<StoreChunk> = Vec::new();
            if let Some(id) = anchor {
                at.push(StoreChunk { id: text(id), chunk: seq });
            }
            Some(at)
        },
    }
}

/// One retaining follower, as the interest axis sees it: what it covers, and
/// where it stands in each store it has read.
#[derive(Clone, Debug, PartialEq, Eq)]
pub struct Retaining {
    pub name: String,
    pub select: String,
    pub at: Vec<StoreChunk>,
}

/// A follower found in the registry.
#[derive(Debug, Clone)]
pub struct FoundFollower {
    pub name: String,
    /// Nothing where the declaration could not be read.
    pub declaration: Option<Declaration>,
    /// Whether its selection is one.
    pub selectable: bool,
    /// Nothing where its places could not be read.
    pub at: Option<Vec<StoreChunk>>,
}

/// One entry of the registry's directory.
#[derive(Debug, Clone)]
pub enum RegistryEntry {
    /// It could not be listed.
    Unlisted,
    NotADirectory,
    /// Its name is no text.
    Nameless,
    Directory(FoundFollower),
}

/// The registry's directory, listed.
#[derive(Debug, Clone)]
pub enum Scan {
    /// There is none, so nothing is registered: a fact, not a gap.
    Missing,
    Unreadable,
    Entries(Vec<RegistryEntry>),
}

/// What an entry of the registry says.
pub enum EntryVerdict {
    /// It is no retaining follower.
    Skip,
    /// It might have been a retaining follower of any store.
    Unknown,
    Retains,
}

/// What an entry of the registry says. An unreadable declaration, a selection
/// that is none and places that cannot be read each leave open which stores
/// are held.
pub open spec fn verdict(e: RegistryEntry) -> EntryVerdict {
    match e {
        RegistryEntry::Unlisted => EntryVerdict::Unknown,
        RegistryEntry::NotADirectory => EntryVerdict::Skip,
        RegistryEntry::Nameless => EntryVerdict::Unknown,
        RegistryEntry::Directory(f) => if !is_name(f.name@) {
            EntryVerdict::Skip
        } else {
            match f.declaration {
                None => EntryVerdict::Unknown,
                Some(d) => if !d.retaining {
                    EntryVerdict::Skip
                } else if !f.selectable || f.at is None {
                    EntryVerdict::Unknown
                } else {
                    EntryVerdict::Retains
                },
            }
        },
    }
}

/// The retaining follower that an entry is.
pub open spec fn retaining_of(e: RegistryEntry) -> Retaining {
    let f = e->Directory_0;
    Retaining { name: f.name, select: f.declaration->Some_0.select, at: f.at->Some_0 }
}

/// Every retaining follower of the registry, in the order listed; nothing
/// where one entry leaves open which stores are held.
pub open spec fn retained(entries: Seq<RegistryEntry>) -> Option<Seq<Retaining>>
    decreases entries.len(),
{
    if entries.len() == 0 {
        Some(Seq::empty())
    } else {
        match (retained(entries.drop_last()), verdict(entries.last())) {
            (None, _) => None,
            (_, EntryVerdict::Unknown) => None,
            (Some(v), EntryVerdict::Skip) => Some(v),
            (Some(v), EntryVerdict::Retains) => Some(v.push(retaining_of(entries.last()))),
        }
    }
}

/// What fails for the first entries fails for all.
proof fn lemma_retained_stops(entries: Seq<RegistryEntry>, k: int)
    requires
        0 <= k <= entries.len(),
        retained(entries.take(k)) is None,
    ensures
        retained(entries) is None,
    decreases entries.len(),
{
    if k == entries.len() {
        assert(entries.take(k) =~= entries);
    } else {
        assert(entries.drop_last().take(k) =~= entries.take(k));
        lemma_retained_stops(entries.drop_last(), k);
    }
}

/// A follower of one store, and where it stands in it.
pub struct Stand {
    pub name: Seq<char>,
    pub at: Option<u64>,
}

/// Whether the `i`th retaining follower covers the store. Where that is not
/// told, it does.
pub open spec fn covers_it(covers: Seq<bool>, i: int) -> bool {
    i >= covers.len() || covers[i]
}

/// The retaining followers that cover a store, and where each stands in it. A
/// follower without a place in the store holds all of it, and so does every
/// follower where the store has no identity to be placed by.
pub open spec fn stands_in(
    all: Seq<Retaining>,
    covers: Seq<bool>,
    id: Option<Seq<char>>,
) -> Seq<Stand>
    decreases all.len(),
{
    if all.len() == 0 {
        Seq::empty()
    } else {
        let front = stands_in(all.drop_last(), covers, id);
        if covers_it(covers, all.len() - 1) {
            front.push(
                Stand {
                    name: all.last().name@,
                    at: match id {
                        Some(i) => chunk_at(all.last().at@, i),
                        None => None,
                    },
                },
            )
        } else {
            front
        }
    }
}

/// Whether a place holds everything: there is none, or it claims a chunk that
/// the store has never written.
pub open spec fn holds_all(at: Option<u64>, next_seq: u64) -> bool {
    match at {
        None => true,
        Some(seq) => seq >= next_seq,
    }
}

/// The first that holds everything; how many there are where none does.
pub open spec fn first_holding(v: Seq<Stand>, next_seq: u64, i: int) -> int
    decreases v.len() - i,
{
    if i >= v.len() || holds_all(v[i].at, next_seq) {
        i
    } else {
        first_holding(v, next_seq, i + 1)
    }
}

/// The first that no other is behind, from the `i`th on, given the first
/// among those before.
pub open spec fn furthest_behind(v: Seq<Stand>, i: int, best: int) -> int
    decreases v.len() - i,
{
    if i >= v.len() {
        best
    } else if v[i].at->Some_0 < v[best].at->Some_0 {
        furthest_behind(v, i + 1, i)
    } else {
        furthest_behind(v, i + 1, best)
    }
}

/// What the followers of a store hold back.
pub open spec fn interest_of(v: Seq<Stand>, next_seq: u64) -> InterestModel {
    let k = first_holding(v, next_seq, 0);
    if v.len() == 0 {
        no_interest()
    } else if k < v.len() {
        InterestModel {
            floor: None,
            holder: Some(v[k].name),
            holder_at: v[k].at,
            retaining: v.len(),
            blind: false,
        }
    } else {
        let b = furthest_behind(v, 1, 0);
        InterestModel {
            floor: v[b].at,
            holder: Some(v[b].name),
            holder_at: v[b].at,
            retaining: v.len(),
            blind: false,
        }
    }
}

/// The interest axis for every store, from one read of the registry. It is
/// read afresh every tick: a place is saved inside a follower's own directory,
/// which the registry's time of change does not show.
#[derive(Debug, Clone)]
pub struct InterestIndex {
    retaining: Option<Vec<Retaining>>,
}

impl View for InterestIndex {
    type V = Option<Seq<Retaining>>;

    closed spec fn view(&self) -> Option<Seq<Retaining>> {
        match self.retaining {
            Some(v) => Some(v@),
            None => None,
        }
    }
}

/// What a store may drop by interest, from what is known of the registry.
pub open spec fn interest_in(
    index: Option<Seq<Retaining>>,
    covers: Seq<bool>,
    id: Option<Seq<char>>,
    next_seq: u64,
) -> InterestModel {
    match index {
        None => InterestModel {
            floor: None,
            holder: None,
            holder_at: None,
            retaining: 0,
            blind: true,
        },
        Some(all) => interest_of(stands_in(all, covers, id), next_seq),
    }
}

struct Standing {
    name: String,
    at: Option<u64>,
}

spec fn stand_models(v: Seq<Standing>) -> Seq<Stand> {
    Seq::new(v.len(), |i: int| Stand { name: v[i].name@, at: v[i].at })
}

fn standing_in(all: &Vec<Retaining>, covers: &Vec<bool>, id: Option<&str>) -> (r: Vec<Standing>)
    ensures
        stand_models(r@) == stands_in(all@, covers@, opt_str(id)),
{
    let mut out: Vec<Standing> = Vec::new();
    let mut i: usize = 0;
    proof {
        assert(stand_models(out@) =~= Seq::empty());
        assert(all@.take(0) =~= Seq::empty());
    }
    while i < all.len()
        invariant
            i <= all@.len(),
            stand_models(out@) == stands_in(all@.take(i as int), covers@, opt_str(id)),
        decreases all@.len() - i,
    {
        proof {
            assert(all@.take(i + 1).drop_last() =~= all@.take(i as int));
        }
        if i >= covers.len() || covers[i] {
            let at: Option<u64> = match id {
                Some(s) => find_chunk(&all[i].at, s),
                None => None,
            };
            let ghost was = out@;
            let one = Standing { name: text(all[i].name.as_str()), at };
            out.push(one);
            proof {
                assert(stand_models(out@) =~= stand_models(was).push(
                    (Stand { name: one.name@, at: one.at }),
                ));
            }
        }
        i = i + 1;
    }
    proof {
        assert(all@.take(i as int) =~= all@);
    }
    out
}

impl InterestIndex {
    /// Nothing is known, so everything is held: what there is where no
    /// registry can be consulted.
    pub fn closed() -> (r: InterestIndex)
        ensures
            r@ is None,
    {
        InterestIndex { retaining: None }
    }

    /// Reads a registry. An entry that might have been a retaining follower of
    /// any store fails closed for every store.
    pub fn read(scan: Scan) -> (r: InterestIndex)
        ensures
            r@ == (match scan {
                Scan::Missing => Some(Seq::<Retaining>::empty()),
                Scan::Unreadable => None,
                Scan::Entries(v) => retained(v@),
            }),
    {
        let entries = match scan {
            Scan::Missing => {
                let r = InterestIndex { retaining: Some(Vec::new()) };
                proof {
                    assert(r@->Some_0 =~= Seq::<Retaining>::empty());
                }
                return r;
            },
            Scan::Unreadable => {
                return InterestIndex::closed();
            },
            Scan::Entries(v) => v,
        };
        let ghost all = entries@;
        let mut out: Vec<Retaining> = Vec::new();
        proof {
            assert(out@ =~= Seq::<Retaining>::empty());
        }
        for entry in it: entries
            invariant
                it.seq() == all,
                scan is Entries,
                scan->Entries_0@ == all,
                retained(all.take(it.index() as int)) == Some(out@),
        {
            let ghost k = it.index() as int;
            proof {
                assert(all.take(k + 1).drop_last() =~= all.take(k));
                assert(all.take(k + 1).last() == entry);
                if retained(all.take(k + 1)) is None {
                    lemma_retained_stops(all, k + 1);
                }
            }
            match entry {
                RegistryEntry::NotADirectory => {},
                RegistryEntry::Unlisted => {
                    return InterestIndex::closed();
                },
                RegistryEntry::Nameless => {
                    return InterestIndex::closed();
                },
                RegistryEntry::Directory(f) => {
                    if check_name(f.name.as_str()).is_ok() {
                        match f.declaration {
                            None => {
                                return InterestIndex::closed();
                            },
                            Some(d) => {
                                if d.retaining {
                                    if !f.selectable {
                                        return InterestIndex::closed();
                                    }
                                    match f.at {
                                        None => {
                                            return InterestIndex::closed();
                                        },
                                        Some(at) => {
                                            out.push(
                                                Retaining { name: f.name, select: d.select, at },
                                            );
                                        },
                                    }
                                }
                            },
                        }
                    }
                },
            }
        }
        proof {
            assert(all.take(all.len() as int) =~= all);
        }
        InterestIndex { retaining: Some(out) }
    }

    /// The selections of the retaining followers, in the order in which
    /// `for_store` is to be told which of them cover a store.
    pub fn selections(&self) -> (r: Vec<String>)
        ensures
            match self@ {
                None => r@.len() == 0,
                Some(all) => r@.len() == all.len() && forall|i: int|
                    0 <= i < r@.len() ==> (#[trigger] r@[i])@ == all[i].select@,
            },
    {
        let mut out: Vec<String> = Vec::new();
        if let Some(all) = &self.retaining {
            let mut i: usize = 0;
            while i < all.len()
                invariant
                    i <= all@.len(),
                    out@.len() == i,
                    forall|j: int| 0 <= j < i ==> (#[trigger] out@[j])@ == all@[j].select@,
                decreases all@.len() - i,
            {
                out.push(text(all[i].select.as_str()));
                i = i + 1;
            }
        }
        out
    }

    /// What a store may drop by interest: told which of the retaining
    /// followers cover it, its identity, and the number its next chunk will
    /// get.
    pub fn for_store(&self, covers: &Vec<bool>, id: Option<&str>, next_seq: u64) -> (r: Interest)
        ensures
            r@ == interest_in(self@, covers@, opt_str(id), next_seq),
    {
        let all = match &self.retaining {
            Some(all) => all,
            None => {
                return Interest {
                    floor: None,
                    holder: None,
                    holder_at: None,
                    retaining: 0,
                    blind: true,
                };
            },
        };
        let v = standing_in(all, covers, id);
        let ghost models = stand_models(v@);
        if v.len() == 0 {
            return Interest::default();
        }
        let mut k: usize = 0;
        while k < v.len()
            invariant
                k <= v@.len(),
                models == stand_models(v@),
                first_holding(models, next_seq, 0) == first_holding(models, next_seq, k as int),
                forall|j: int| 0 <= j < k ==> !holds_all((#[trigger] models[j]).at, next_seq),
                self@ == Some(all@),
                models == stands_in(all@, covers@, opt_str(id)),
            decreases v@.len() - k,
        {
            let held = match v[k].at {
                None => true,
                Some(seq) => seq >= next_seq,
            };
            if held {
                return Interest {
                    floor: None,
                    holder: Some(text(v[k].name.as_str())),
                    holder_at: v[k].at,
                    retaining: v.len(),
                    blind: false,
                };
            }
            k = k + 1;
        }
        let mut best: usize = 0;
        let mut i: usize = 1;
        while i < v.len()
            invariant
                1 <= i <= v@.len(),
                best < i,
                models == stand_models(v@),
                forall|j: int| 0 <= j < v@.len()
                    ==> !holds_all((#[trigger] models[j]).at, next_seq),
                furthest_behind(models, 1, 0) == furthest_behind(models, i as int, best as int),
            decreases v@.len() - i,
        {
            proof {
                assert(models[i as int].at == v@[i as int].at);
                assert(models[best as int].at == v@[best as int].at);
            }
            if let (Some(a), Some(b)) = (v[i].at, v[best].at) {
                if a < b {
                    best = i;
                }
            }
            i = i + 1;
        }
        Interest {
            floor: v[best].at,
            holder: Some(text(v[best].name.as_str())),
            holder_at: v[best].at,
            retaining: v.len(),
            blind: false,
        }
    }
}

/// The interest axis for one retention tick: the registry is read at most
/// once, and only if some store declares the axis.
#[derive(Debug, Clone)]
pub struct TickInterest {
    index: Option<InterestIndex>,
}

impl View for TickInterest {
    type V = Option<Option<Seq<Retaining>>>;

    closed spec fn view(&self) -> Option<Option<Seq<Retaining>>> {
        match self.index {
            Some(i) => Some(i@),
            None => None,
        }
    }
}

impl Default for TickInterest {
    fn default() -> (r: TickInterest)
        ensures
            r@ is None,
    {
        TickInterest { index: None }
    }
}

impl TickInterest {
    /// Whether the registry has to be read before a store's interest is asked
    /// for: never for a store that does not declare the axis, and never twice.
    pub fn wants_registry(&self, policy: &Retention) -> (r: bool)
        ensures
            r == (policy.unconsumed && self@ is None),
    {
        policy.unconsumed && self.index.is_none()
    }

    /// Takes what was read of the registry, where nothing was before.
    pub fn take(&mut self, index: InterestIndex)
        ensures
            final(self)@ == (if old(self)@ is None {
                Some(index@)
            } else {
                old(self)@
            }),
    {
        if self.index.is_none() {
            self.index = Some(index);
        }
    }

    /// The selections that a store is to be matched against.
    pub fn selections(&self) -> (r: Vec<String>)
        ensures
            match self@ {
                Some(Some(all)) => r@.len() == all.len() && forall|i: int|
                    0 <= i < r@.len() ==> (#[trigger] r@[i])@ == all[i].select@,
                _ => r@.len() == 0,
            },
    {
        match &self.index {
            Some(index) => index.selections(),
            None => Vec::new(),
        }
    }

    /// What a store may drop by interest on this tick. A store that does not
    /// declare the axis is held by nothing; where it does and no registry was
    /// read, nothing is known.
    pub fn floor(
        &self,
        policy: &Retention,
        covers: &Vec<bool>,
        id: Option<&str>,
        next_seq: u64,
    ) -> (r: Interest)
        ensures
            r@ == (if !policy.unconsumed {
                no_interest()
            } else {
                interest_in(
                    match self@ {
                        Some(index) => index,
                        None => None,
                    },
                    covers@,
                    opt_str(id),
                    next_seq,
                )
            }),
            !policy.unconsumed ==> r.floor is None && r.holder is None && !r.blind,
            policy.unconsumed && (self@ is None || self@->Some_0 is None) ==> r.blind && r.floor is None,
    {
        if !policy.unconsumed {
            return Interest::default();
        }
        match &self.index {
            Some(index) => index.for_store(covers, id, next_seq),
            None => InterestIndex::closed().for_store(covers, id, next_seq),
        }
    }
}

// ----------------------------------------------------------------- the loss

/// What a head drop dropped.
#[derive(Clone, Copy, Debug, PartialEq, Eq, Structural)]
pub struct RotateStats {
    pub chunks_moved: usize,
    pub uncomp_bytes: u64,
    pub comp_bytes: u64,
    pub first_write_ms: u64,
    pub last_write_ms: u64,
    pub chunks_remaining: usize,
    pub first_seq: u64,
    pub last_seq: u64,
}

/// The first chunk that was dropped unread, if any was: nothing where no
/// retaining follower was found, or where all that was dropped is below the
/// floor.
pub open spec fn first_lost(stats: RotateStats, interest: InterestModel) -> Option<u64> {
    if interest.holder is None {
        None
    } else {
        match interest.floor {
            None => Some(stats.first_seq),
            Some(floor) => if stats.last_seq >= floor {
                Some(
                    if floor > stats.first_seq {
                        floor
                    } else {
                        stats.first_seq
                    },
                )
            } else {
                None
            },
        }
    }
}

/// What is said of the chunks that were dropped unread.
pub open spec fn loss_said(
    store: Seq<char>,
    policy: Retention,
    budget: Seq<char>,
    stats: RotateStats,
    interest: InterestModel,
    first: u64,
) -> Seq<char> {
    "timberfs: "@ + store + ": retain_size ("@ + (if policy.max_comp_bytes is Some {
        budget
    } else {
        "the size budget"@
    }) + ") reached with follower "@ + interest.holder->Some_0 + " "@ + (match interest.holder_at {
        Some(seq) => "at chunk "@ + decimal(seq as nat),
        None => "which has never run"@,
    }) + " — dropped chunks "@ + decimal(first as nat) + ".."@ + decimal(stats.last_seq as nat)
        + " it had not read"@
}

/// The exact loss, when a declared budget dropped chunks that a retaining
/// follower had not read. `budget` is the policy's size budget as it is shown.
pub fn override_record(
    store: &str,
    policy: &Retention,
    budget: &str,
    stats: &RotateStats,
    interest: &Interest,
) -> (r: Option<String>)
    ensures
        match r {
            Some(s) => first_lost(*stats, interest@) is Some && s@ == loss_said(
                store@,
                *policy,
                budget@,
                *stats,
                interest@,
                first_lost(*stats, interest@)->Some_0,
            ),
            None => first_lost(*stats, interest@) is None,
        },
{
    let holder = match &interest.holder {
        Some(h) => h,
        None => {
            return None;
        },
    };
    let first: u64 = match interest.floor {
        None => stats.first_seq,
        Some(floor) => {
            if stats.last_seq < floor {
                return None;
            }
            if floor > stats.first_seq {
                floor
            } else {
                stats.first_seq
            }
        },
    };
    let shown = if policy.max_comp_bytes.is_some() {
        budget
    } else {
        "the size budget"
    };
    let position = match interest.holder_at {
        Some(seq) => text("at chunk ").concat(number_text(seq).as_str()),
        None => text("which has never run"),
    };
    Some(
        text("timberfs: ").concat(store).concat(": retain_size (").concat(shown).concat(
            ") reached with follower ",
        ).concat(holder.as_str()).concat(" ").concat(position.as_str()).concat(
            " — dropped chunks ",
        ).concat(number_text(first).as_str()).concat("..").concat(
            number_text(stats.last_seq).as_str(),
        ).concat(" it had not read"),
    )
}

// --------------------------------------------------------------------- laws

proof fn lemma_first_holding(v: Seq<Stand>, next_seq: u64, i: int)
    requires
        0 <= i <= v.len(),
    ensures
        ({
            let k = first_holding(v, next_seq, i);
            &&& i <= k <= v.len()
            &&& k < v.len() ==> holds_all(v[k].at, next_seq)
            &&& forall|j: int| i <= j < k ==> !holds_all((#[trigger] v[j]).at, next_seq)
        }),
    decreases v.len() - i,
{
    if i < v.len() && !holds_all(v[i].at, next_seq) {
        lemma_first_holding(v, next_seq, i + 1);
    }
}

proof fn lemma_furthest_behind(v: Seq<Stand>, i: int, best: int)
    requires
        0 <= best < i <= v.len(),
        forall|j: int| 0 <= j < i
            ==> (#[trigger] v[best]).at->Some_0 <= (#[trigger] v[j]).at->Some_0,
    ensures
        ({
            let b = furthest_behind(v, i, best);
            &&& 0 <= b < v.len()
            &&& forall|j: int|
                0 <= j < v.len() ==> v[b].at->Some_0 <= (#[trigger] v[j]).at->Some_0
        }),
    decreases v.len() - i,
{
    if i < v.len() {
        if v[i].at->Some_0 < v[best].at->Some_0 {
            assert forall|j: int| 0 <= j < i + 1 implies (#[trigger] v[i]).at->Some_0 <= (
            #[trigger] v[j]).at->Some_0 by {
                assert(v[best].at->Some_0 <= v[best].at->Some_0);
                if j < i {
                    assert(v[best].at->Some_0 <= v[j].at->Some_0);
                }
            }
            lemma_furthest_behind(v, i + 1, i);
        } else {
            assert forall|j: int| 0 <= j < i + 1 implies (#[trigger] v[best]).at->Some_0 <= (
            #[trigger] v[j]).at->Some_0 by {}
            lemma_furthest_behind(v, i + 1, best);
        }
    }
}

/// The floor is the minimum over the retaining followers: each of them has
/// consumed everything below it, one of them stands exactly at it, and the one
/// that is named does. Where one of them has never read the store, or claims
/// what was never written, there is no floor, and one such is named.
pub proof fn the_floor_is_the_minimum(v: Seq<Stand>, next_seq: u64)
    ensures
        ({
            let held = interest_of(v, next_seq);
            &&& held.floor is Some ==> v.len() > 0 && held.floor->Some_0 < next_seq && (forall|
                i: int,
            |
                0 <= i < v.len() ==> (#[trigger] v[i]).at is Some && v[i].at->Some_0
                    >= held.floor->Some_0) && exists|i: int|
                0 <= i < v.len() && (#[trigger] v[i]).at == held.floor && held.holder == Some(
                    v[i].name,
                )
            &&& held.floor is None <==> v.len() == 0 || exists|i: int|
                0 <= i < v.len() && holds_all((#[trigger] v[i]).at, next_seq)
            &&& held.floor is None && v.len() > 0 ==> exists|i: int|
                0 <= i < v.len() && holds_all((#[trigger] v[i]).at, next_seq) && held.holder
                    == Some(v[i].name) && held.holder_at == v[i].at
            &&& held.retaining == v.len()
            &&& !held.blind
        }),
{
    lemma_first_holding(v, next_seq, 0);
    let k = first_holding(v, next_seq, 0);
    if v.len() > 0 {
        if k < v.len() {
            assert(holds_all(v[k].at, next_seq));
        } else {
            assert forall|j: int| 0 <= j < 1 implies (#[trigger] v[0]).at->Some_0 <= (
            #[trigger] v[j]).at->Some_0 by {}
            lemma_furthest_behind(v, 1, 0);
            let b = furthest_behind(v, 1, 0);
            assert(!holds_all(v[b].at, next_seq));
            assert forall|i: int| 0 <= i < v.len() implies (#[trigger] v[i]).at is Some
                && v[i].at->Some_0 >= v[b].at->Some_0 by {
                assert(!holds_all(v[i].at, next_seq));
            }
            assert(v[b].at == interest_of(v, next_seq).floor);
        }
    }
}

/// What interest lets go is consumed by every follower that it is held for: a
/// resume of any of them delivers nothing of it.
pub proof fn what_may_be_dropped_is_consumed_by_all(
    v: Seq<Stand>,
    next_seq: u64,
    records: Seq<ChunkRecord>,
    i: int,
)
    requires
        0 <= i < v.len(),
    ensures
        consumed(records, interest_of(v, next_seq).floor) <= consumed(records, v[i].at),
{
    the_floor_is_the_minimum(v, next_seq);
    let held = interest_of(v, next_seq);
    if let Some(floor) = held.floor {
        assert(v[i].at->Some_0 >= floor);
        lemma_leading_grows(records, floor, v[i].at->Some_0);
    } else {
        if let Some(s) = v[i].at {
            crate::cursor::lemma_leading_below(records, s);
        }
    }
}

proof fn lemma_leading_grows(records: Seq<ChunkRecord>, a: u64, b: u64)
    requires
        a <= b,
    ensures
        crate::cursor::leading_below(records, a) <= crate::cursor::leading_below(records, b),
{
    crate::cursor::lemma_leading_below(records, a);
    crate::cursor::lemma_leading_below(records, b);
    let x = crate::cursor::leading_below(records, a);
    let y = crate::cursor::leading_below(records, b);
    if y < x {
        assert(records[y].seq < a);
    }
}

/// One entry that leaves open which stores are held fails closed for every
/// store: nothing may be dropped by interest, and that is told apart from
/// nothing being retained.
pub proof fn not_knowing_drops_nothing(
    entries: Seq<RegistryEntry>,
    i: int,
    covers: Seq<bool>,
    id: Option<Seq<char>>,
    next_seq: u64,
)
    requires
        0 <= i < entries.len(),
        verdict(entries[i]) is Unknown,
    ensures
        interest_in(retained(entries), covers, id, next_seq).floor is None,
        interest_in(retained(entries), covers, id, next_seq).holder is None,
        interest_in(retained(entries), covers, id, next_seq).blind,
    decreases entries.len(),
{
    lemma_unknown_closes(entries, i);
}

proof fn lemma_unknown_closes(entries: Seq<RegistryEntry>, i: int)
    requires
        0 <= i < entries.len(),
        verdict(entries[i]) is Unknown,
    ensures
        retained(entries) is None,
    decreases entries.len(),
{
    if i < entries.len() - 1 {
        lemma_unknown_closes(entries.drop_last(), i);
    }
}

/// Whether a chunk was dropped that not every retaining follower had read.
pub open spec fn dropped_unread(stats: RotateStats, interest: InterestModel, n: u64) -> bool {
    stats.first_seq <= n <= stats.last_seq && (interest.floor is None || n
        >= interest.floor->Some_0)
}

/// A budget that drops only what every retaining follower has read loses
/// nothing; a record of loss names a range that is not empty and that starts
/// at or past the floor.
pub proof fn a_loss_is_recorded_exactly(stats: RotateStats, interest: InterestModel)
    requires
        stats.first_seq <= stats.last_seq,
    ensures
        interest.floor is Some && stats.last_seq < interest.floor->Some_0 ==> first_lost(
            stats,
            interest,
        ) is None,
        first_lost(stats, interest) is Some ==> ({
            let first = first_lost(stats, interest)->Some_0;
            &&& stats.first_seq <= first <= stats.last_seq
            &&& interest.floor is Some ==> first >= interest.floor->Some_0
            &&& forall|n: u64| #[trigger]
                dropped_unread(stats, interest, n) <==> first <= n <= stats.last_seq
        }),
{
}

} // verus!
