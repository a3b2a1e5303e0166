//! The preset store: named display configurations, kept in insertion order
//! under a format version, with the operations that change them.
use vstd::prelude::*;
use vstd::string::*;
use crate::error::CoreError;

verus! {

/// A named, user-created display configuration.
#[derive(Debug, Clone)]
pub struct Preset {
    /// Assigned once at creation and never changed.
    pub id: String,
    pub name: String,
    /// The tool's argument string, kept verbatim.
    pub config: String,
    /// The shortcut bound to this preset, if any.
    pub hotkey: Option<String>,
    /// When the preset was made, as an RFC 3339 timestamp.
    pub created_at: String,
}

/// What a `Preset` holds, with its strings as character sequences.
pub struct PresetView {
    pub id: Seq<char>,
    pub name: Seq<char>,
    pub config: Seq<char>,
    pub hotkey: Option<Seq<char>>,
    pub created_at: Seq<char>,
}

/// An optional string as an optional character sequence.
pub open spec fn opt_view(o: Option<String>) -> Option<Seq<char>> {
    match o {
        Some(s) => Some(s@),
        None => None,
    }
}

impl View for Preset {
    type V = PresetView;

    open spec fn view(&self) -> PresetView {
        PresetView {
            id: self.id@,
            name: self.name@,
            config: self.config@,
            hotkey: opt_view(self.hotkey),
            created_at: self.created_at@,
        }
    }
}

/// The versioned collection of presets, in insertion order.
#[derive(Debug, Clone)]
pub struct PresetStore {
    pub version: String,
    pub presets: Vec<Preset>,
}

/// What a `PresetStore` holds.
pub struct PresetStoreView {
    pub version: Seq<char>,
    pub presets: Seq<PresetView>,
}

/// What each preset of `ps` holds.
pub open spec fn preset_views(ps: Seq<Preset>) -> Seq<PresetView> {
    ps.map_values(|p: Preset| p@)
}

impl View for PresetStore {
    type V = PresetStoreView;

    open spec fn view(&self) -> PresetStoreView {
        PresetStoreView { version: self.version@, presets: preset_views(self.presets@) }
    }
}

/// The format version that new stores are stamped with.
pub open spec fn current_version() -> Seq<char> {
    "1.0"@
}

impl Default for PresetStore {
    /// An empty store of the current format version.
    fn default() -> (r: PresetStore)
        ensures
            r@.version == current_version(),
            r@.presets.len() == 0,
    {
        PresetStore { version: String::from_str("1.0"), presets: Vec::new() }
    }
}

/// The presets `ps` without those whose id is `id`, in order.
pub open spec fn without_id(ps: Seq<PresetView>, id: Seq<char>) -> Seq<PresetView>
    decreases ps.len(),
{
    if ps.len() == 0 {
        seq![]
    } else {
        let rest = without_id(ps.drop_last(), id);
        if ps.last().id == id {
            rest
        } else {
            rest.push(ps.last())
        }
    }
}

/// `k` is the first position of `ps` whose id is `id`.
pub open spec fn first_with_id(ps: Seq<PresetView>, id: Seq<char>, k: int) -> bool {
    0 <= k < ps.len() && ps[k].id == id && forall|j: int| 0 <= j < k ==> ps[j].id != id
}

/// Whether some preset of `ps` has id `id`.
pub open spec fn has_id(ps: Seq<PresetView>, id: Seq<char>) -> bool {
    exists|j: int| 0 <= j < ps.len() && #[trigger] ps[j].id == id
}

/// `p` with each supplied field replaced. A supplied hotkey replaces the
/// binding even when it is `None`, which clears it.
pub open spec fn patched(
    p: PresetView,
    name: Option<Seq<char>>,
    config: Option<Seq<char>>,
    hotkey: Option<Option<Seq<char>>>,
) -> PresetView {
    PresetView {
        name: match name {
            Some(n) => n,
            None => p.name,
        },
        config: match config {
            Some(c) => c,
            None => p.config,
        },
        hotkey: match hotkey {
            Some(h) => h,
            None => p.hotkey,
        },
        ..p
    }
}

/// A hotkey argument as sequences: `None` when not supplied.
pub open spec fn opt_opt_view(o: Option<Option<String>>) -> Option<Option<Seq<char>>> {
    match o {
        Some(h) => Some(opt_view(h)),
        None => None,
    }
}

/// Relies on `uuid::Uuid::new_v4` and the `Display` of `Uuid`: a random
/// id, written hyphenated (8-4-4-4-12 hex digits) in 36 characters.
#[verifier::external_body]
fn fresh_id() -> (r: String)
    ensures
        r@.len() == 36,
        r@[8] == '-' && r@[13] == '-' && r@[18] == '-' && r@[23] == '-',
{
    uuid::Uuid::new_v4().to_string()
}

/// Relies on `chrono::Utc::now` and `DateTime::to_rfc3339`: the time now,
/// in RFC 3339 form, which is never empty.
#[verifier::external_body]
fn now_rfc3339() -> (r: String)
    ensures
        r@.len() > 0,
{
    chrono::Utc::now().to_rfc3339()
}

/// A copy of an optional string.
fn copy_opt(o: &Option<String>) -> (r: Option<String>)
    ensures
        opt_view(r) == opt_view(*o),
{
    match o {
        Some(s) => Some(s.clone()),
        None => None,
    }
}

impl Preset {
    /// A copy of this preset.
    pub fn duplicate(&self) -> (r: Preset)
        ensures
            r@ == self@,
    {
        Preset {
            id: self.id.clone(),
            name: self.name.clone(),
            config: self.config.clone(),
            hotkey: copy_opt(&self.hotkey),
            created_at: self.created_at.clone(),
        }
    }
}

/// The preset made of these fields.
pub open spec fn preset_of(
    id: Seq<char>,
    created_at: Seq<char>,
    name: Seq<char>,
    config: Seq<char>,
    hotkey: Option<Seq<char>>,
) -> PresetView {
    PresetView { id, name, config, hotkey, created_at }
}

/// Whether some preset of `store` has id `id`.
fn holds_id(store: &PresetStore, id: &String) -> (r: bool)
    ensures
        r == has_id(store@.presets, id@),
{
    let mut i: usize = 0;
    while i < store.presets.len()
        invariant
            i <= store.presets.len(),
            forall|j: int| 0 <= j < i ==> #[trigger] store@.presets[j].id != id@,
        decreases store.presets.len() - i,
    {
        proof {
            assert(store@.presets[i as int] == store.presets@[i as int]@);
        }
        if store.presets[i].id == *id {
            proof {
                assert(store@.presets[i as int].id == id@);
            }
            return true;
        }
        i += 1;
    }
    false
}

/// Appends the preset with id `id`, made at `created_at`, to `store` and
/// returns a copy of it; `DuplicateId`, with the store unchanged, when a
/// preset of the store already has that id.
pub fn insert_preset(
    store: &mut PresetStore,
    id: String,
    created_at: String,
    name: String,
    config: String,
    hotkey: Option<String>,
) -> (r: Result<Preset, CoreError>)
    ensures
        r is Ok <==> !has_id(old(store)@.presets, id@),
        match r {
            Ok(p) => p@ == preset_of(id@, created_at@, name@, config@, opt_view(hotkey))
                && final(store)@ == (PresetStoreView {
                    presets: old(store)@.presets.push(p@),
                    ..old(store)@
                }),
            Err(CoreError::DuplicateId(d)) => d@ == id@ && final(store)@ == old(store)@,
            Err(_) => false,
        },
{
    if holds_id(store, &id) {
        return Err(CoreError::DuplicateId(id));
    }
    let p = Preset { id, name, config, hotkey, created_at };
    let copy = p.duplicate();
    let ghost before = store.presets@;
    store.presets.push(p);
    proof {
        assert(preset_views(store.presets@) =~= preset_views(before).push(copy@));
    }
    Ok(copy)
}

/// How many ids `add_preset` draws before it gives up on finding one that
/// the store does not hold.
pub const MAX_ID_DRAWS: usize = 8;

/// Appends a new preset with a freshly drawn id and the current time to
/// `store`, and returns a copy of it. An id that the store already holds is
/// drawn again, up to `MAX_ID_DRAWS` draws in all; if every draw collides the
/// result is `DuplicateId` and the store is unchanged. Drawn ids are 36
/// characters long, so the call succeeds whenever no preset of the store has
/// an id of that length (an empty store in particular).
pub fn add_preset(store: &mut PresetStore, name: String, config: String, hotkey: Option<String>) -> (r: Result<Preset, CoreError>)
    ensures
        (forall|j: int|
            0 <= j < old(store)@.presets.len() ==> (#[trigger] old(store)@.presets[j]).id.len()
                != 36) ==> r is Ok,
        match r {
            Ok(p) => final(store)@ == (PresetStoreView {
                presets: old(store)@.presets.push(p@),
                ..old(store)@
            }) && !has_id(old(store)@.presets, p.id@) && p.name@ == name@ && p.config@
                == config@ && opt_view(p.hotkey) == opt_view(hotkey) && p.id@.len() == 36
                && p.created_at@.len() > 0,
            Err(e) => e is DuplicateId && final(store)@ == old(store)@,
        },
{
    let mut id = fresh_id();
    let mut draws: usize = 1;
    while draws < MAX_ID_DRAWS && holds_id(store, &id)
        invariant
            id@.len() == 36,
            1 <= draws <= MAX_ID_DRAWS,
            store@ == old(store)@,
        decreases MAX_ID_DRAWS - draws,
    {
        id = fresh_id();
        draws += 1;
    }
    let ghost drawn = id@;
    let created_at = now_rfc3339();
    let r = insert_preset(store, id, created_at, name, config, hotkey);
    proof {
        if r is Ok {
            assert(r->Ok_0.id@ == drawn);
        }
        if has_id(old(store)@.presets, drawn) {
            let j = choose|j: int| 0 <= j < old(store)@.presets.len() && #[trigger] old(store)@.presets[j].id == drawn;
            assert(old(store)@.presets[j].id.len() == 36);
        }
    }
    r
}

/// Removes every preset whose id is `id`; an id that no preset has is no
/// error.
pub fn delete_preset(store: &mut PresetStore, id: &str)
    ensures
        final(store)@ == (PresetStoreView {
            presets: without_id(old(store)@.presets, id@),
            ..old(store)@
        }),
{
    let key = String::from_str(id);
    let mut kept: Vec<Preset> = Vec::new();
    let mut i: usize = 0;
    while i < store.presets.len()
        invariant
            i <= store.presets.len(),
            key@ == id@,
            store@ == old(store)@,
            preset_views(kept@) == without_id(preset_views(store.presets@).take(i as int), id@),
        decreases store.presets.len() - i,
    {
        proof {
            assert(preset_views(store.presets@).take(i + 1).drop_last() =~= preset_views(
                store.presets@,
            ).take(i as int));
        }
        if store.presets[i].id != key {
            let ghost before = kept@;
            kept.push(store.presets[i].duplicate());
            proof {
                assert(preset_views(kept@) =~= preset_views(before).push(store.presets@[i as int]@));
            }
        }
        i += 1;
    }
    proof {
        assert(preset_views(store.presets@).take(store.presets.len() as int) =~= preset_views(
            store.presets@,
        ));
    }
    store.presets = kept;
}

/// Changes the first preset whose id is `id`: each of `name`, `config` and
/// `hotkey` that is supplied replaces the field, and `Some(None)` for the
/// hotkey clears it. Returns the changed preset; `PresetNotFound`, with the
/// store unchanged, when no preset has that id.
pub fn update_preset(
    store: &mut PresetStore,
    id: &str,
    name: Option<String>,
    config: Option<String>,
    hotkey: Option<Option<String>>,
) -> (r: Result<Preset, CoreError>)
    ensures
        r is Ok <==> has_id(old(store)@.presets, id@),
        match r {
            Ok(p) => exists|k: int|
                first_with_id(old(store)@.presets, id@, k) && p@ == patched(
                    old(store)@.presets[k],
                    opt_view(name),
                    opt_view(config),
                    opt_opt_view(hotkey),
                ) && final(store)@ == (PresetStoreView {
                    presets: old(store)@.presets.update(k, p@),
                    ..old(store)@
                }),
            Err(e) => e is PresetNotFound && final(store)@ == old(store)@,
        },
{
    let key = String::from_str(id);
    let mut i: usize = 0;
    while i < store.presets.len() && store.presets[i].id != key
        invariant
            i <= store.presets.len(),
            key@ == id@,
            store@ == old(store)@,
            forall|j: int| 0 <= j < i ==> store@.presets[j].id != id@,
        decreases store.presets.len() - i,
    {
        i += 1;
    }
    if i == store.presets.len() {
        return Err(CoreError::PresetNotFound);
    }
    proof {
        assert(store@.presets[i as int].id == id@);
        assert(first_with_id(old(store)@.presets, id@, i as int));
    }
    let current = &store.presets[i];
    let new_name = match name {
        Some(n) => n,
        None => current.name.clone(),
    };
    let new_config = match config {
        Some(c) => c,
        None => current.config.clone(),
    };
    let new_hotkey = match hotkey {
        Some(h) => h,
        None => copy_opt(&current.hotkey),
    };
    let updated = Preset {
        id: current.id.clone(),
        name: new_name,
        config: new_config,
        hotkey: new_hotkey,
        created_at: current.created_at.clone(),
    };
    let result = updated.duplicate();
    let ghost before = store.presets@;
    store.presets.set(i, updated);
    proof {
        assert(preset_views(store.presets@) =~= preset_views(before).update(i as int, result@));
        assert(result@ == patched(
            old(store)@.presets[i as int],
            opt_view(name),
            opt_view(config),
            opt_opt_view(hotkey),
        ));
    }
    Ok(result)
}

/// Removing an id that no preset has changes nothing.
proof fn lemma_without_absent(ps: Seq<PresetView>, id: Seq<char>)
    requires
        !has_id(ps, id),
    ensures
        without_id(ps, id) == ps,
    decreases ps.len(),
{
    if ps.len() > 0 {
        assert(ps.last().id != id) by {
            if ps.last().id == id {
                assert(ps[ps.len() - 1].id == id);
            }
        }
        assert(!has_id(ps.drop_last(), id)) by {
            if has_id(ps.drop_last(), id) {
                let j = choose|j: int| 0 <= j < ps.drop_last().len() && #[trigger] ps.drop_last()[j].id == id;
                assert(ps[j].id == id);
            }
        }
        lemma_without_absent(ps.drop_last(), id);
        assert(ps.drop_last().push(ps.last()) =~= ps);
    } else {
        assert(ps =~= seq![]);
    }
}

/// Adding a preset whose id no preset of the store has, then deleting by
/// that id, gives back the store exactly as it was.
pub proof fn lemma_add_then_delete(store: PresetStoreView, p: PresetView)
    requires
        !has_id(store.presets, p.id),
    ensures
        (PresetStoreView { presets: without_id(store.presets.push(p), p.id), ..store }) == store,
{
    assert(store.presets.push(p).drop_last() =~= store.presets);
    lemma_without_absent(store.presets, p.id);
}

/// Two additions that start from the same loaded store and each save their
/// whole result race: the store that the later save writes lacks the preset
/// of the earlier one, so one addition is lost.
pub proof fn lemma_unserialized_adds_lose_one(
    snapshot: PresetStoreView,
    first: PresetView,
    second: PresetView,
)
    requires
        !has_id(snapshot.presets, first.id),
        first.id != second.id,
    ensures
        !has_id(
            (PresetStoreView { presets: snapshot.presets.push(second), ..snapshot }).presets,
            first.id,
        ),
{
    let ps = snapshot.presets.push(second);
    if has_id(ps, first.id) {
        let j = choose|j: int| 0 <= j < ps.len() && #[trigger] ps[j].id == first.id;
        if j < snapshot.presets.len() {
            assert(snapshot.presets[j].id == first.id);
        }
    }
}

/// Two additions made one after the other, the second loading what the
/// first saved, keep both presets: their ids differ, and the store holds
/// the first and then the second after what it held before.
pub proof fn lemma_serialized_adds_keep_both(
    snapshot: PresetStoreView,
    first: PresetView,
    second: PresetView,
)
    requires
        !has_id(snapshot.presets, first.id),
        !has_id(snapshot.presets.push(first), second.id),
    ensures
        first.id != second.id,
        (PresetStoreView { presets: snapshot.presets.push(first).push(second), ..snapshot }).presets
            == snapshot.presets + seq![first, second],
{
    let ps = snapshot.presets.push(first);
    assert(ps[snapshot.presets.len() as int].id == first.id);
    assert(snapshot.presets.push(first).push(second) =~= snapshot.presets + seq![first, second]);
}

} // verus!
