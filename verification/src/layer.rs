//! Layers: named shortcut maps whose actions either branch into a sub-layer or run a command.
use crate::command::Command;
use crate::key::Key;
use crate::shortcut_map::ShortcutMap;
use vstd::prelude::*;

verus! {

/// What a shortcut in a layer does.
#[derive(Debug)]
pub enum Action {
    Branch(Layer),
    Execute(Command),
}

/// A named set of shortcuts.
#[derive(Debug)]
pub struct Layer {
    pub name: String,
    pub shortcuts: ShortcutMap<Action>,
}

/// A layer is well formed when its shortcut map and those of all its sub-layers are, and every
/// command in it is.
pub open spec fn layer_wf(layer: Layer) -> bool
    decreases layer,
{
    &&& layer.shortcuts.wf()
    &&& forall|i: int|
        0 <= i < layer.shortcuts.entries@.len() ==> match #[trigger] layer.shortcuts.entries@[i].1 {
            Action::Branch(sub) => layer_wf(sub),
            Action::Execute(c) => c.wf(),
        }
}

impl Layer {
    /// An empty layer with the given name.
    pub fn new(name: String) -> (l: Layer)
        ensures
            l.name == name,
            l.shortcuts@ == Map::<Key, Action>::empty(),
            layer_wf(l),
    {
        Layer { name, shortcuts: ShortcutMap::new() }
    }

    /// Binds a command to a shortcut.
    ///
    /// # Errors
    ///
    /// Returns the key and the action if the shortcut is already assigned.
    pub fn add_command(&mut self, shortcut: Key, command: Command) -> (r: Result<(), (Key, Action)>)
        requires
            layer_wf(*old(self)),
            command.wf(),
        ensures
            layer_wf(*final(self)),
            final(self).name == old(self).name,
            old(self).shortcuts@.contains_key(shortcut) ==> r == Err::<(), (Key, Action)>(
                (shortcut, Action::Execute(command)),
            ) && *final(self) == *old(self),
            !old(self).shortcuts@.contains_key(shortcut) ==> r is Ok
                && final(self).shortcuts@ == old(self).shortcuts@.insert(
                shortcut,
                Action::Execute(command),
            ),
    {
        let ghost old_layer = *self;
        let r = self.shortcuts.try_assign(shortcut, Action::Execute(command));
        proof {
            lemma_layer_wf_after_insert(old_layer, *self, shortcut, Action::Execute(command));
        }
        r
    }

    /// Binds a sub-layer to a shortcut.
    ///
    /// # Errors
    ///
    /// Returns the key and the action if the shortcut is already assigned.
    pub fn add_layer(&mut self, shortcut: Key, layer: Layer) -> (r: Result<(), (Key, Action)>)
        requires
            layer_wf(*old(self)),
            layer_wf(layer),
        ensures
            layer_wf(*final(self)),
            final(self).name == old(self).name,
            old(self).shortcuts@.contains_key(shortcut) ==> r == Err::<(), (Key, Action)>(
                (shortcut, Action::Branch(layer)),
            ) && *final(self) == *old(self),
            !old(self).shortcuts@.contains_key(shortcut) ==> r is Ok
                && final(self).shortcuts@ == old(self).shortcuts@.insert(
                shortcut,
                Action::Branch(layer),
            ),
    {
        let ghost old_layer = *self;
        let r = self.shortcuts.try_assign(shortcut, Action::Branch(layer));
        proof {
            lemma_layer_wf_after_insert(old_layer, *self, shortcut, Action::Branch(layer));
        }
        r
    }

    /// The action bound to exactly the pressed key, modifiers included.
    pub fn resolve_shortcut(&self, key: &Key) -> (r: Option<&Action>)
        requires
            layer_wf(*self),
        ensures
            r == (if self.shortcuts@.contains_key(*key) {
                Some(&self.shortcuts@[*key])
            } else {
                None
            }),
    {
        self.shortcuts.match_exact(key)
    }
}

/// Every action a well-formed layer holds is well formed.
pub proof fn lemma_layer_action_wf(layer: Layer, i: int)
    requires
        layer_wf(layer),
        0 <= i < layer.shortcuts.entries@.len(),
    ensures
        match layer.shortcuts.entries@[i].1 {
            Action::Branch(sub) => layer_wf(sub),
            Action::Execute(c) => c.wf(),
        },
{
    let _ = layer.shortcuts.entries@[i].1;
}

/// Adding a well-formed action to a well-formed layer, when the map stays well formed and gains
/// at most that pair, leaves a well-formed layer.
proof fn lemma_layer_wf_after_insert(old_layer: Layer, new_layer: Layer, k: Key, a: Action)
    requires
        layer_wf(old_layer),
        new_layer.shortcuts.wf(),
        match a {
            Action::Branch(sub) => layer_wf(sub),
            Action::Execute(c) => c.wf(),
        },
        new_layer == old_layer || new_layer.shortcuts@ == old_layer.shortcuts@.insert(k, a),
    ensures
        layer_wf(new_layer),
{
    if new_layer != old_layer {
        assert forall|i: int| 0 <= i < new_layer.shortcuts.entries@.len() implies match #[trigger] new_layer.shortcuts.entries@[i].1 {
            Action::Branch(sub) => layer_wf(sub),
            Action::Execute(c) => c.wf(),
        } by {
            new_layer.shortcuts.lemma_pair_in_view(i);
            let key = new_layer.shortcuts.entries@[i].0;
            if key != k {
                assert(old_layer.shortcuts@.contains_key(key));
                let j = choose|j: int|
                    0 <= j < old_layer.shortcuts.pairs().len() && #[trigger] old_layer.shortcuts.pairs()[j].0 == key;
                old_layer.shortcuts.lemma_pair_in_view(j);
                let _ = old_layer.shortcuts.entries@[j].1;
            }
        }
    }
}

} // verus!
