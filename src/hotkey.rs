//! The shortcut registry that binds global hotkeys to presets, and the plan
//! that brings it in line with the preset list after the list changes.
use vstd::prelude::*;
use vstd::string::*;
use crate::error::CoreError;
use crate::preset::{Preset, PresetView, preset_views};

verus! {

/// One shortcut bound to one preset.
#[derive(Debug, Clone)]
pub struct HotkeyBinding {
    pub preset_id: String,
    /// The shortcut, such as `Cmd+Shift+1`.
    pub shortcut: String,
    pub description: String,
}

/// What a `HotkeyBinding` holds.
pub struct HotkeyBindingView {
    pub preset_id: Seq<char>,
    pub shortcut: Seq<char>,
    pub description: Seq<char>,
}

impl View for HotkeyBinding {
    type V = HotkeyBindingView;

    open spec fn view(&self) -> HotkeyBindingView {
        HotkeyBindingView {
            preset_id: self.preset_id@,
            shortcut: self.shortcut@,
            description: self.description@,
        }
    }
}

/// What each binding of `bs` holds.
pub open spec fn binding_views(bs: Seq<HotkeyBinding>) -> Seq<HotkeyBindingView> {
    bs.map_values(|b: HotkeyBinding| b@)
}

/// The description that a binding of `shortcut` carries.
pub open spec fn description_for(shortcut: Seq<char>) -> Seq<char> {
    "Apply preset with "@ + shortcut
}

/// The binding that registering `shortcut` for `preset_id` records.
pub open spec fn binding_for(preset_id: Seq<char>, shortcut: Seq<char>) -> HotkeyBindingView {
    HotkeyBindingView { preset_id, shortcut, description: description_for(shortcut) }
}

/// Whether some binding of `bs` is for `shortcut`.
pub open spec fn is_bound(bs: Seq<HotkeyBindingView>, shortcut: Seq<char>) -> bool {
    exists|j: int| 0 <= j < bs.len() && #[trigger] bs[j].shortcut == shortcut
}

/// No shortcut is bound twice.
pub open spec fn shortcuts_distinct(bs: Seq<HotkeyBindingView>) -> bool {
    forall|i: int, j: int|
        0 <= i < bs.len() && 0 <= j < bs.len() && i != j ==> #[trigger] bs[i].shortcut
            != #[trigger] bs[j].shortcut
}

/// The shortcuts that are registered, each bound to at most one preset.
#[derive(Debug, Clone)]
pub struct HotkeyRegistry {
    pub bindings: Vec<HotkeyBinding>,
}

impl View for HotkeyRegistry {
    type V = Seq<HotkeyBindingView>;

    open spec fn view(&self) -> Seq<HotkeyBindingView> {
        binding_views(self.bindings@)
    }
}

/// Whether the presets `ps` ask for binding `b`: a preset with its id has
/// its shortcut as hotkey.
pub open spec fn wanted(ps: Seq<PresetView>, b: HotkeyBindingView) -> bool {
    exists|i: int|
        0 <= i < ps.len() && #[trigger] ps[i].id == b.preset_id && ps[i].hotkey == Some(
            b.shortcut,
        )
}

/// Whether `bs` binds `shortcut` to `preset_id`.
pub open spec fn has_binding(bs: Seq<HotkeyBindingView>, preset_id: Seq<char>, shortcut: Seq<char>) -> bool {
    exists|j: int|
        0 <= j < bs.len() && #[trigger] bs[j].shortcut == shortcut && bs[j].preset_id == preset_id
}

/// The shortcuts of the bindings of `bs` that no preset of `ps` asks for, in order.
pub open spec fn stale_shortcuts(bs: Seq<HotkeyBindingView>, ps: Seq<PresetView>) -> Seq<Seq<char>>
    decreases bs.len(),
{
    if bs.len() == 0 {
        seq![]
    } else {
        let rest = stale_shortcuts(bs.drop_last(), ps);
        if wanted(ps, bs.last()) {
            rest
        } else {
            rest.push(bs.last().shortcut)
        }
    }
}

/// The bindings that the presets `ps` ask for and `bs` lacks, in preset order.
pub open spec fn missing_bindings(ps: Seq<PresetView>, bs: Seq<HotkeyBindingView>) -> Seq<HotkeyBindingView>
    decreases ps.len(),
{
    if ps.len() == 0 {
        seq![]
    } else {
        let rest = missing_bindings(ps.drop_last(), bs);
        let p = ps.last();
        match p.hotkey {
            Some(h) => if has_binding(bs, p.id, h) {
                rest
            } else {
                rest.push(binding_for(p.id, h))
            },
            None => rest,
        }
    }
}

/// What to do to the OS shortcut table so that it matches the presets:
/// first unregister the stale shortcuts, then register the new bindings.
#[derive(Debug, Clone)]
pub struct HotkeyPlan {
    pub unregister: Vec<String>,
    pub register: Vec<HotkeyBinding>,
}

/// A copy of a binding.
fn copy_binding(b: &HotkeyBinding) -> (r: HotkeyBinding)
    ensures
        r@ == b@,
{
    HotkeyBinding {
        preset_id: b.preset_id.clone(),
        shortcut: b.shortcut.clone(),
        description: b.description.clone(),
    }
}

/// Whether some preset of `presets` asks for binding `b`.
fn is_wanted(presets: &Vec<Preset>, b: &HotkeyBinding) -> (r: bool)
    ensures
        r == wanted(preset_views(presets@), b@),
{
    let mut i: usize = 0;
    while i < presets.len()
        invariant
            i <= presets.len(),
            forall|j: int|
                0 <= j < i ==> !(#[trigger] preset_views(presets@)[j].id == b@.preset_id
                    && preset_views(presets@)[j].hotkey == Some(b@.shortcut)),
        decreases presets.len() - i,
    {
        let p = &presets[i];
        proof {
            assert(preset_views(presets@)[i as int] == p@);
        }
        let hit = match &p.hotkey {
            Some(h) => p.id == b.preset_id && *h == b.shortcut,
            None => false,
        };
        if hit {
            proof {
                assert(preset_views(presets@)[i as int].id == b@.preset_id);
                assert(preset_views(presets@)[i as int].hotkey == Some(b@.shortcut));
            }
            return true;
        }
        i += 1;
    }
    false
}

/// Whether the shortcut parser accepts `s`: modifiers first, then one key.
pub uninterp spec fn shortcut_parses(s: Seq<char>) -> bool;

/// Relies on the `FromStr` of `global_hotkey::hotkey::HotKey`, the parser
/// behind the global-shortcut plugin's `Shortcut`: whether `s` parses, which
/// depends on `s` alone.
#[verifier::external_body]
fn shortcut_is_valid(s: &str) -> (r: bool)
    ensures
        r == shortcut_parses(s@),
{
    s.parse::<global_hotkey::hotkey::HotKey>().is_ok()
}

/// Checks that `shortcut` is a valid shortcut; `HotkeyInvalidFormat`,
/// carrying the shortcut, when it is not.
pub fn validate_hotkey_format(shortcut: &str) -> (r: Result<(), CoreError>)
    ensures
        r is Ok <==> shortcut_parses(shortcut@),
        match r {
            Ok(()) => true,
            Err(CoreError::HotkeyInvalidFormat(s)) => s@ == shortcut@,
            Err(_) => false,
        },
{
    if shortcut_is_valid(shortcut) {
        Ok(())
    } else {
        Err(CoreError::HotkeyInvalidFormat(String::from_str(shortcut)))
    }
}

impl HotkeyRegistry {
    /// No shortcut is bound twice.
    pub open spec fn wf(&self) -> bool {
        shortcuts_distinct(self@)
    }

    /// A registry with nothing bound.
    pub fn new() -> (r: HotkeyRegistry)
        ensures
            r@.len() == 0,
            r.wf(),
    {
        HotkeyRegistry { bindings: Vec::new() }
    }

    /// Where `shortcut` is bound, if it is.
    fn position(&self, shortcut: &String) -> (r: Option<usize>)
        ensures
            match r {
                Some(k) => k < self@.len() && self@[k as int].shortcut == shortcut@,
                None => !is_bound(self@, shortcut@),
            },
    {
        let mut i: usize = 0;
        while i < self.bindings.len()
            invariant
                i <= self.bindings.len(),
                forall|j: int| 0 <= j < i ==> #[trigger] self@[j].shortcut != shortcut@,
            decreases self.bindings.len() - i,
        {
            proof {
                assert(self@[i as int] == self.bindings@[i as int]@);
            }
            if self.bindings[i].shortcut == *shortcut {
                return Some(i);
            }
            i += 1;
        }
        None
    }

    /// Whether `shortcut` is free to bind.
    pub fn is_free(&self, shortcut: &str) -> (r: bool)
        ensures
            r == !is_bound(self@, shortcut@),
    {
        let key = String::from_str(shortcut);
        self.position(&key).is_none()
    }

    /// Binds `shortcut` to preset `preset_id`. A shortcut that is already
    /// bound stays as it is, and the result is `HotkeyAlreadyRegistered`.
    pub fn bind(&mut self, preset_id: &str, shortcut: &str) -> (r: Result<
        (),
        CoreError,
    >)
        requires
            old(self).wf(),
        ensures
            final(self).wf(),
            r is Ok <==> !is_bound(old(self)@, shortcut@),
            match r {
                Ok(()) => final(self)@ == old(self)@.push(binding_for(preset_id@, shortcut@)),
                Err(CoreError::HotkeyAlreadyRegistered(s)) => s@ == shortcut@ && final(self)@
                    == old(self)@,
                Err(_) => false,
            },
    {
        let key = String::from_str(shortcut);
        match self.position(&key) {
            Some(_) => Err(CoreError::HotkeyAlreadyRegistered(key)),
            None => {
                let description = String::from_str("Apply preset with ").concat(shortcut);
                let b = HotkeyBinding { preset_id: String::from_str(preset_id), shortcut: key, description };
                let ghost before = self.bindings@;
                self.bindings.push(b);
                proof {
                    assert(self@ =~= binding_views(before).push(binding_for(preset_id@, shortcut@)));
                    assert forall|i: int, j: int|
                        0 <= i < self@.len() && 0 <= j < self@.len() && i != j implies #[trigger] self@[i].shortcut
                            != #[trigger] self@[j].shortcut by {
                        if i == self@.len() - 1 {
                            assert(binding_views(before)[j].shortcut != shortcut@);
                        } else if j == self@.len() - 1 {
                            assert(binding_views(before)[i].shortcut != shortcut@);
                        }
                    }
                }
                Ok(())
            },
        }
    }

    /// Removes the binding of `shortcut`; returns whether there was one.
    pub fn unbind(&mut self, shortcut: &str) -> (r: bool)
        requires
            old(self).wf(),
        ensures
            final(self).wf(),
            r == is_bound(old(self)@, shortcut@),
            !is_bound(final(self)@, shortcut@),
            r ==> exists|k: int|
                0 <= k < old(self)@.len() && #[trigger] old(self)@[k].shortcut == shortcut@
                    && final(self)@ == old(self)@.remove(k),
            !r ==> final(self)@ == old(self)@,
    {
        let key = String::from_str(shortcut);
        match self.position(&key) {
            Some(k) => {
                let ghost before = self@;
                self.bindings.remove(k);
                proof {
                    assert(self@ =~= before.remove(k as int));
                    assert(before[k as int].shortcut == shortcut@);
                    assert forall|i: int, j: int|
                        0 <= i < self@.len() && 0 <= j < self@.len() && i != j implies #[trigger] self@[i].shortcut
                            != #[trigger] self@[j].shortcut by {
                        let oi = if i < k { i } else { i + 1 };
                        let oj = if j < k { j } else { j + 1 };
                        assert(self@[i] == before[oi]);
                        assert(self@[j] == before[oj]);
                    }
                    if is_bound(self@, shortcut@) {
                        let j = choose|j: int| 0 <= j < self@.len() && #[trigger] self@[j].shortcut == shortcut@;
                        let oj = if j < k { j } else { j + 1 };
                        assert(self@[j] == before[oj]);
                    }
                }
                true
            },
            None => false,
        }
    }

    /// Removes every binding.
    pub fn unregister_all_hotkeys(&mut self)
        ensures
            final(self)@.len() == 0,
            final(self).wf(),
    {
        self.bindings = Vec::new();
    }

    /// Copies of the bindings, in the order they were made.
    pub fn get_registered_hotkeys(&self) -> (r: Vec<HotkeyBinding>)
        ensures
            binding_views(r@) == self@,
    {
        let mut r: Vec<HotkeyBinding> = Vec::new();
        let mut i: usize = 0;
        while i < self.bindings.len()
            invariant
                i <= self.bindings.len(),
                binding_views(r@) == self@.take(i as int),
            decreases self.bindings.len() - i,
        {
            let ghost before = r@;
            r.push(copy_binding(&self.bindings[i]));
            proof {
                assert(binding_views(r@) =~= binding_views(before).push(self@[i as int]));
                assert(self@.take(i + 1) =~= self@.take(i as int).push(self@[i as int]));
            }
            i += 1;
        }
        proof {
            assert(self@.take(self@.len() as int) =~= self@);
        }
        r
    }

    /// The preset that a press of `shortcut` applies, if it is bound.
    pub fn preset_for_shortcut(&self, shortcut: &str) -> (r: Option<String>)
        ensures
            r is Some <==> is_bound(self@, shortcut@),
            match r {
                Some(id) => exists|k: int|
                    0 <= k < self@.len() && #[trigger] self@[k].shortcut == shortcut@ && self@[k].preset_id == id@,
                None => true,
            },
    {
        let key = String::from_str(shortcut);
        match self.position(&key) {
            Some(k) => Some(self.bindings[k].preset_id.clone()),
            None => None,
        }
    }

    /// Registers `shortcut` for preset `preset_id`: a shortcut that does not
    /// parse is `HotkeyInvalidFormat`, one already bound is
    /// `HotkeyAlreadyRegistered`, and in both cases nothing changes.
    pub fn register_preset_hotkey(&mut self, preset_id: &str, shortcut: &str) -> (r: Result<
        (),
        CoreError,
    >)
        requires
            old(self).wf(),
        ensures
            final(self).wf(),
            r is Ok <==> shortcut_parses(shortcut@) && !is_bound(old(self)@, shortcut@),
            match r {
                Ok(()) => final(self)@ == old(self)@.push(binding_for(preset_id@, shortcut@)),
                Err(CoreError::HotkeyInvalidFormat(s)) => !shortcut_parses(shortcut@) && s@
                    == shortcut@ && final(self)@ == old(self)@,
                Err(CoreError::HotkeyAlreadyRegistered(s)) => shortcut_parses(shortcut@) && s@
                    == shortcut@ && final(self)@ == old(self)@,
                Err(_) => false,
            },
    {
        match validate_hotkey_format(shortcut) {
            Ok(()) => self.bind(preset_id, shortcut),
            Err(e) => Err(e),
        }
    }

    /// Unregisters `shortcut`; returns whether it was bound. A shortcut that
    /// does not parse is `HotkeyInvalidFormat`, and nothing changes.
    pub fn unregister_hotkey(&mut self, shortcut: &str) -> (r: Result<bool, CoreError>)
        requires
            old(self).wf(),
        ensures
            final(self).wf(),
            r is Ok <==> shortcut_parses(shortcut@),
            match r {
                Ok(was) => was == is_bound(old(self)@, shortcut@) && !is_bound(
                    final(self)@,
                    shortcut@,
                ) && (was ==> exists|k: int|
                    0 <= k < old(self)@.len() && #[trigger] old(self)@[k].shortcut == shortcut@
                        && final(self)@ == old(self)@.remove(k)) && (!was ==> final(self)@ == old(
                    self,
                )@),
                Err(CoreError::HotkeyInvalidFormat(s)) => s@ == shortcut@ && final(self)@ == old(
                    self,
                )@,
                Err(_) => false,
            },
    {
        match validate_hotkey_format(shortcut) {
            Ok(()) => Ok(self.unbind(shortcut)),
            Err(e) => Err(e),
        }
    }

    /// Whether `shortcut` is a valid shortcut that nothing is bound to; a
    /// shortcut that does not parse is `HotkeyInvalidFormat`.
    pub fn is_hotkey_available(&self, shortcut: &str) -> (r: Result<bool, CoreError>)
        ensures
            r is Ok <==> shortcut_parses(shortcut@),
            match r {
                Ok(free) => free == !is_bound(self@, shortcut@),
                Err(CoreError::HotkeyInvalidFormat(s)) => s@ == shortcut@,
                Err(_) => false,
            },
    {
        match validate_hotkey_format(shortcut) {
            Ok(()) => Ok(self.is_free(shortcut)),
            Err(e) => Err(e),
        }
    }

    /// Whether `shortcut` is bound to `preset_id`.
    fn binds(&self, preset_id: &String, shortcut: &String) -> (r: bool)
        ensures
            r == has_binding(self@, preset_id@, shortcut@),
    {
        let mut i: usize = 0;
        while i < self.bindings.len()
            invariant
                i <= self.bindings.len(),
                forall|j: int|
                    0 <= j < i ==> !(#[trigger] self@[j].shortcut == shortcut@ && self@[j].preset_id
                        == preset_id@),
            decreases self.bindings.len() - i,
        {
            proof {
                assert(self@[i as int] == self.bindings@[i as int]@);
            }
            if self.bindings[i].shortcut == *shortcut && self.bindings[i].preset_id == *preset_id {
                proof {
                    assert(self@[i as int].shortcut == shortcut@);
                }
                return true;
            }
            i += 1;
        }
        false
    }

    /// What brings the registry in line with `presets`: the shortcuts whose
    /// binding no preset asks for any more, and the bindings that presets ask
    /// for and the registry lacks.
    pub fn plan_hotkeys(&self, presets: &Vec<Preset>) -> (r: HotkeyPlan)
        ensures
            r.unregister@.map_values(|s: String| s@) == stale_shortcuts(self@, preset_views(presets@)),
            binding_views(r.register@) == missing_bindings(preset_views(presets@), self@),
    {
        let ghost ps = preset_views(presets@);
        let mut unregister: Vec<String> = Vec::new();
        let mut i: usize = 0;
        while i < self.bindings.len()
            invariant
                i <= self.bindings.len(),
                ps == preset_views(presets@),
                unregister@.map_values(|s: String| s@) == stale_shortcuts(self@.take(i as int), ps),
            decreases self.bindings.len() - i,
        {
            let b = &self.bindings[i];
            proof {
                assert(self@.take(i + 1).drop_last() =~= self@.take(i as int));
                assert(self@[i as int] == b@);
            }
            if !is_wanted(presets, b) {
                let ghost before = unregister@;
                unregister.push(b.shortcut.clone());
                proof {
                    assert(unregister@.map_values(|s: String| s@) =~= before.map_values(|s: String| s@).push(b@.shortcut));
                }
            }
            i += 1;
        }
        proof {
            assert(self@.take(self@.len() as int) =~= self@);
        }
        let mut register: Vec<HotkeyBinding> = Vec::new();
        let mut j: usize = 0;
        while j < presets.len()
            invariant
                j <= presets.len(),
                ps == preset_views(presets@),
                binding_views(register@) == missing_bindings(ps.take(j as int), self@),
            decreases presets.len() - j,
        {
            let p = &presets[j];
            proof {
                assert(ps.take(j + 1).drop_last() =~= ps.take(j as int));
                assert(ps[j as int] == p@);
            }
            match &p.hotkey {
                Some(h) => {
                    if !self.binds(&p.id, h) {
                        let description = String::from_str("Apply preset with ").concat(h.as_str());
                        let ghost before = register@;
                        register.push(HotkeyBinding { preset_id: p.id.clone(), shortcut: h.clone(), description });
                        proof {
                            assert(binding_views(register@) =~= binding_views(before).push(binding_for(p@.id, h@)));
                        }
                    }
                },
                None => {},
            }
            j += 1;
        }
        proof {
            assert(ps.take(ps.len() as int) =~= ps);
        }
        HotkeyPlan { unregister, register }
    }
}

} // verus!
