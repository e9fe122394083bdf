//! Playlists: an ordered list of items, a playback policy, and a stable
//! identity used to deduplicate playlists across reloads. An item is either a
//! canonical track of the catalog (held by its arena index), a weak reference
//! to another playlist (held by that playlist's stable identity), or an
//! anonymous inline block of further items.

use vstd::prelude::*;

verus! {

/// The order in which a playlist plays back its items.
#[derive(Clone, Copy, Debug, PartialEq, Eq, Structural)]
pub enum PlaybackMode {
    /// Play all items in order, once.
    Continuous,
    /// Play all items in one random order, once.
    Shuffle,
    /// Repeat the original order indefinitely.
    LoopContinuous,
    /// Repeat indefinitely, reshuffling at the start of every lap.
    LoopShuffle,
}

impl Default for PlaybackMode {
    fn default() -> (r: PlaybackMode)
        ensures
            r == PlaybackMode::Continuous,
    {
        PlaybackMode::Continuous
    }
}

/// One entry of a playlist.
#[derive(Debug)]
pub enum PlaylistItem {
    /// A canonical track, held by its index into the catalog's track arena.
    Track(usize),
    /// A weak reference to another playlist, held by its stable identity;
    /// it resolves to "absent" when no playlist of that identity remains.
    Playlist(u128),
    /// An inline, unnamed sub-sequence of items.
    Block(Vec<PlaylistItem>),
}

/// The mathematical shape of a playlist item, with blocks as sequences.
#[verifier::ext_equal]
pub enum ItemModel {
    Track(int),
    Playlist(u128),
    Block(Seq<ItemModel>),
}

impl PlaylistItem {
    /// The mathematical shape of this item.
    pub open spec fn model(self) -> ItemModel
        decreases self, 1int,
    {
        match self {
            PlaylistItem::Track(i) => ItemModel::Track(i as int),
            PlaylistItem::Playlist(id) => ItemModel::Playlist(id),
            PlaylistItem::Block(v) => ItemModel::Block(item_models(v@)),
        }
    }
}

/// The mathematical shapes of a sequence of items.
pub open spec fn item_models(items: Seq<PlaylistItem>) -> Seq<ItemModel>
    decreases items, 0int,
{
    if items.len() == 0 {
        Seq::empty()
    } else {
        item_models(items.drop_last()).push(items.last().model())
    }
}

/// `item_models` maps the sequence pointwise.
pub proof fn lemma_item_models(items: Seq<PlaylistItem>)
    ensures
        item_models(items).len() == items.len(),
        forall|i: int| 0 <= i < items.len() ==> item_models(items)[i] == #[trigger] items[i].model(),
    decreases items.len(),
{
    if items.len() > 0 {
        lemma_item_models(items.drop_last());
        assert forall|i: int| 0 <= i < items.len() implies item_models(items)[i] == #[trigger] items[i].model() by {
            if i < items.len() - 1 {
                assert(items.drop_last()[i] == items[i]);
                assert(item_models(items)[i] == item_models(items.drop_last())[i]);
            } else {
                assert(items[i] == items.last());
            }
        }
    }
}

/// Every track reference inside the item points below `track_count`.
pub open spec fn item_wf(item: PlaylistItem, track_count: int) -> bool
    decreases item, 1int,
{
    match item {
        PlaylistItem::Track(i) => (i as int) < track_count,
        PlaylistItem::Playlist(_) => true,
        PlaylistItem::Block(v) => items_wf(v@, track_count),
    }
}

/// Every track reference inside the items points below `track_count`.
pub open spec fn items_wf(items: Seq<PlaylistItem>, track_count: int) -> bool
    decreases items, 0int,
{
    if items.len() == 0 {
        true
    } else {
        items_wf(items.drop_last(), track_count) && item_wf(items.last(), track_count)
    }
}

/// `items_wf` holds exactly when each item is well formed.
pub proof fn lemma_items_wf(items: Seq<PlaylistItem>, track_count: int)
    ensures
        items_wf(items, track_count) <==> (forall|i: int|
            0 <= i < items.len() ==> item_wf(#[trigger] items[i], track_count)),
    decreases items.len(),
{
    if items.len() > 0 {
        lemma_items_wf(items.drop_last(), track_count);
        assert forall|i: int| 0 <= i < items.len() - 1 implies items.drop_last()[i] == items[i] by {}
        assert(items[items.len() - 1] == items.last());
    }
}

/// Structural equality of two items: same shape, same track indices, same
/// playlist identities.
pub fn item_eq(a: &PlaylistItem, b: &PlaylistItem) -> (r: bool)
    ensures
        r == (a.model() == b.model()),
    decreases *a,
{
    match (a, b) {
        (PlaylistItem::Track(i), PlaylistItem::Track(j)) => i == j,
        (PlaylistItem::Playlist(x), PlaylistItem::Playlist(y)) => x == y,
        (PlaylistItem::Block(u), PlaylistItem::Block(v)) => items_eq_block(a, b, u, v),
        _ => false,
    }
}

/// Element-wise structural equality of two blocks' item lists.
fn items_eq_block(a: &PlaylistItem, b: &PlaylistItem, u: &Vec<PlaylistItem>, v: &Vec<PlaylistItem>) -> (r: bool)
    requires
        *a matches PlaylistItem::Block(uu) && uu == *u,
        *b matches PlaylistItem::Block(vv) && vv == *v,
    ensures
        r == (a.model() == b.model()),
    decreases *a, 1int,
{
    if u.len() != v.len() {
        assert(a.model() != b.model()) by {
            lemma_item_models(u@);
            lemma_item_models(v@);
        }
        return false;
    }
    let n = u.len();
    let mut k: usize = 0;
    while k < n
        invariant
            n == u@.len() == v@.len(),
            k <= n,
            *a matches PlaylistItem::Block(uu) && uu == *u,
            *b matches PlaylistItem::Block(vv) && vv == *v,
            forall|j: int| 0 <= j < k ==> u@[j].model() == v@[j].model(),
        decreases n - k,
    {
        proof {
            assert(decreases_to!(*a => u@[k as int]));
        }
        if !item_eq(&u[k], &v[k]) {
            assert(a.model() != b.model()) by {
                lemma_item_models(u@);
                lemma_item_models(v@);
            }
            return false;
        }
        k = k + 1;
    }
    proof {
        lemma_item_models(u@);
        lemma_item_models(v@);
        assert forall|j: int| 0 <= j < item_models(u@).len() implies item_models(u@)[j] == item_models(
            v@,
        )[j] by {
            assert(u@[j].model() == v@[j].model());
        }
        assert(item_models(u@) =~= item_models(v@));
    }
    true
}

impl PartialEq for PlaylistItem {
    fn eq(&self, other: &Self) -> (r: bool) {
        item_eq(self, other)
    }
}

impl vstd::std_specs::cmp::PartialEqSpecImpl for PlaylistItem {
    open spec fn obeys_eq_spec() -> bool {
        true
    }

    open spec fn eq_spec(&self, other: &Self) -> bool {
        self.model() == other.model()
    }
}

/// An ordered list of items plus a playback policy and a stable identity.
/// The playback queue and lap flag are the transient state of the
/// playback-order iterator and are not persisted.
#[derive(Debug)]
pub struct Playlist {
    pub name: Option<String>,
    pub items: Vec<PlaylistItem>,
    pub playback_mode: PlaybackMode,
    /// Stable identity: playlists of equal identity are deduplicated into
    /// one canonical instance across reloads.
    pub id: u128,
    /// The pending lap, as positions into `items`; the next entry to play
    /// stands last. Meaningful only between pulls of the iterator.
    pub play_queue: Vec<usize>,
    /// Whether the next pull starts a fresh lap.
    pub first: bool,
}

/// The persistent part of a playlist, in mathematical form.
#[verifier::ext_equal]
pub struct PlaylistModel {
    pub name: Option<Seq<char>>,
    pub items: Seq<ItemModel>,
    pub playback_mode: PlaybackMode,
    pub id: u128,
}

impl Playlist {
    /// The persistent part of this playlist, in mathematical form.
    pub open spec fn model(self) -> PlaylistModel {
        PlaylistModel {
            name: match self.name {
                None => None,
                Some(s) => Some(s@),
            },
            items: item_models(self.items@),
            playback_mode: self.playback_mode,
            id: self.id,
        }
    }

    /// The pending lap as positions into `items`, next entry last.
    pub open spec fn queue(self) -> Seq<usize> {
        self.play_queue@
    }

    /// Whether the next pull starts a fresh lap.
    pub open spec fn at_lap_start(self) -> bool {
        self.first
    }

    /// Every queued position points inside `items`.
    pub open spec fn wf(self) -> bool {
        forall|k: int| 0 <= k < self.queue().len() ==> (self.queue()[k] as int) < self.items@.len()
    }

    /// Whether this playlist repeats after exhausting a lap.
    pub open spec fn looping(self) -> bool {
        self.playback_mode == PlaybackMode::LoopContinuous || self.playback_mode
            == PlaybackMode::LoopShuffle
    }

    /// Whether each lap plays in a fresh random order.
    pub open spec fn shuffled(self) -> bool {
        self.playback_mode == PlaybackMode::Shuffle || self.playback_mode
            == PlaybackMode::LoopShuffle
    }

    /// A playlist over the given items, with a freshly drawn identity and
    /// the playback iterator at the start of its first lap.
    pub fn new(name: Option<String>, items: Vec<PlaylistItem>, playback_mode: PlaybackMode) -> (r: Playlist)
        ensures
            r.name == name,
            r.items == items,
            r.playback_mode == playback_mode,
            r.queue().len() == 0,
            r.at_lap_start(),
            r.wf(),
    {
        Playlist {
            name,
            items,
            playback_mode,
            id: fresh_playlist_id(),
            play_queue: Vec::new(),
            first: true,
        }
    }
}

impl Default for Playlist {
    /// An empty playlist with a freshly drawn identity.
    fn default() -> (r: Playlist)
        ensures
            r.name is None,
            r.items@.len() == 0,
            r.playback_mode == PlaybackMode::Continuous,
            r.queue().len() == 0,
            r.at_lap_start(),
            r.wf(),
    {
        Playlist {
            name: None,
            items: Vec::new(),
            playback_mode: PlaybackMode::Continuous,
            id: fresh_playlist_id(),
            play_queue: Vec::new(),
            first: true,
        }
    }
}

/// Relies on uuid's `Uuid::new_v4`, a randomly drawn version-4 UUID, read
/// back as its 128-bit value. Nothing is promised of the result: it is
/// random.
#[verifier::external_body]
fn fresh_playlist_id() -> u128 {
    uuid::Uuid::new_v4().as_u128()
}

} // verus!
