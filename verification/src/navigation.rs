//! Layer navigation: the decisions of a session that walks the layer tree one key press at a
//! time, and what it shows while doing so.
use crate::command::Command;
use crate::execution::CommandExecutionResult;
use crate::key::Key;
use crate::layer::{layer_wf, lemma_layer_action_wf, Action, Layer};
use vstd::prelude::*;

verus! {

/// What a shortcut offers, as shown to the user.
#[derive(Debug)]
pub enum ViewAction {
    Branch(String),
    Execute(String),
    Unbranch,
    Exit,
    Retry,
}

/// Whether `keys` holds `key`.
pub fn keys_contain(keys: &[Key], key: &Key) -> (r: bool)
    ensures
        r == keys@.contains(*key),
{
    let mut i: usize = 0;
    while i < keys.len()
        invariant
            i <= keys.len(),
            forall|j: int| 0 <= j < i ==> keys@[j] != *key,
        decreases keys.len() - i,
    {
        if keys[i] == *key {
            return true;
        }
        i += 1;
    }
    false
}

/// Whether `va` shows the layer action `a`: a branch by the sub-layer's name, a command by its
/// name.
pub open spec fn shows_action(a: Action, va: ViewAction) -> bool {
    match (a, va) {
        (Action::Branch(l), ViewAction::Branch(n)) => n@ == l.name@,
        (Action::Execute(c), ViewAction::Execute(n)) => n@ == c.name_view(),
        _ => false,
    }
}

/// The system actions that keys can be bound to in a view.
#[derive(Clone, Copy, Debug, PartialEq, Eq, Structural)]
pub enum SystemAction {
    Unbranch,
    Exit,
    Retry,
}

/// Whether `va` is the view action for `s`.
pub open spec fn shows_system(s: SystemAction, va: ViewAction) -> bool {
    match (s, va) {
        (SystemAction::Unbranch, ViewAction::Unbranch) => true,
        (SystemAction::Exit, ViewAction::Exit) => true,
        (SystemAction::Retry, ViewAction::Retry) => true,
        _ => false,
    }
}

fn system_view_action(s: SystemAction) -> (r: ViewAction)
    ensures
        shows_system(s, r),
{
    match s {
        SystemAction::Unbranch => ViewAction::Unbranch,
        SystemAction::Exit => ViewAction::Exit,
        SystemAction::Retry => ViewAction::Retry,
    }
}

/// Appends one pair per key, each showing the system action `s`.
pub fn append_key_actions(actions: &mut Vec<(Key, ViewAction)>, keys: &[Key], s: SystemAction)
    ensures
        final(actions)@.len() == old(actions)@.len() + keys@.len(),
        forall|i: int| 0 <= i < old(actions)@.len() ==> #[trigger] final(actions)@[i] == old(actions)@[i],
        forall|i: int|
            0 <= i < keys@.len() ==> (#[trigger] final(actions)@[old(actions)@.len() + i]).0 == keys@[i]
                && shows_system(s, final(actions)@[old(actions)@.len() + i].1),
{
    let ghost start = actions@;
    let mut i: usize = 0;
    while i < keys.len()
        invariant
            i <= keys.len(),
            actions@.len() == start.len() + i,
            forall|j: int| 0 <= j < start.len() ==> #[trigger] actions@[j] == start[j],
            forall|j: int|
                0 <= j < i ==> (#[trigger] actions@[start.len() + j]).0 == keys@[j] && shows_system(
                    s,
                    actions@[start.len() + j].1,
                ),
        decreases keys.len() - i,
    {
        actions.push((keys[i], system_view_action(s)));
        i += 1;
    }
}

/// The shortcuts of a layer as view actions, in key order.
pub fn render_layer_actions(layer: &Layer) -> (r: Vec<(Key, ViewAction)>)
    ensures
        r@.len() == layer.shortcuts.entries@.len(),
        forall|i: int|
            0 <= i < r@.len() ==> (#[trigger] r@[i]).0 == layer.shortcuts.entries@[i].0 && shows_action(
                layer.shortcuts.entries@[i].1,
                r@[i].1,
            ),
{
    let mut r: Vec<(Key, ViewAction)> = Vec::new();
    let mut i: usize = 0;
    while i < layer.shortcuts.entries.len()
        invariant
            i <= layer.shortcuts.entries@.len(),
            r@.len() == i,
            forall|j: int|
                0 <= j < i ==> (#[trigger] r@[j]).0 == layer.shortcuts.entries@[j].0 && shows_action(
                    layer.shortcuts.entries@[j].1,
                    r@[j].1,
                ),
        decreases layer.shortcuts.entries@.len() - i,
    {
        let (key, action) = &layer.shortcuts.entries[i];
        let view_action = match action {
            Action::Branch(sub) => ViewAction::Branch(sub.name.clone()),
            Action::Execute(command) => ViewAction::Execute(command.name()),
        };
        r.push((*key, view_action));
        i += 1;
    }
    r
}

/// Whether `child` is a layer that `parent` branches into.
pub open spec fn branches_into(parent: Layer, child: Layer) -> bool {
    exists|j: int|
        0 <= j < parent.shortcuts.entries@.len() && #[trigger] parent.shortcuts.entries@[j].1
            == Action::Branch(child)
}

/// What one key press led to.
#[derive(Debug)]
pub enum NavigationOutcome<'a> {
    /// An exit key was pressed: the session ends.
    Exit,
    /// A back key was pressed below the root: the innermost layer was left.
    Unbranched,
    /// The key branched into a sub-layer.
    Branched,
    /// The key is bound to a command, which is to be executed.
    Execute(&'a Command),
    /// The key means nothing here.
    Ignored,
}

/// The state of a layer navigation: the root layer and the layers branched into below it,
/// innermost last.
pub struct LayerNavigation<'a> {
    root: &'a Layer,
    branches: Vec<&'a Layer>,
}

impl<'a> LayerNavigation<'a> {
    /// The root layer.
    pub closed spec fn root_layer(self) -> Layer {
        *self.root
    }

    /// The layers branched into, innermost last.
    pub closed spec fn branch_seq(self) -> Seq<Layer> {
        self.branches@.map_values(|l: &Layer| *l)
    }

    /// The layer whose shortcuts are active.
    pub open spec fn active(self) -> Layer {
        if self.branch_seq().len() == 0 {
            self.root_layer()
        } else {
            self.branch_seq().last()
        }
    }

    /// Each branch is a sub-layer of the layer before it, the first one of the root, and all
    /// layers are well formed.
    pub open spec fn wf(self) -> bool {
        &&& layer_wf(self.root_layer())
        &&& forall|i: int| 0 <= i < self.branch_seq().len() ==> layer_wf(#[trigger] self.branch_seq()[i])
        &&& forall|i: int|
            0 <= i < self.branch_seq().len() ==> branches_into(
                if i == 0 {
                    self.root_layer()
                } else {
                    self.branch_seq()[i - 1]
                },
                #[trigger] self.branch_seq()[i],
            )
    }

    /// A navigation at the root layer.
    pub fn new(root: &'a Layer) -> (r: LayerNavigation<'a>)
        requires
            layer_wf(*root),
        ensures
            r.wf(),
            r.root_layer() == *root,
            r.branch_seq() == Seq::<Layer>::empty(),
    {
        let r = LayerNavigation { root, branches: Vec::new() };
        assert(r.branch_seq() =~= Seq::<Layer>::empty());
        r
    }

    /// Whether the navigation is below the root layer.
    pub fn is_branched(&self) -> (r: bool)
        ensures
            r == (self.branch_seq().len() > 0),
    {
        self.branches.len() > 0
    }

    /// The layer whose shortcuts are active.
    pub fn active_layer(&self) -> (r: &'a Layer)
        ensures
            *r == self.active(),
    {
        if self.branches.len() == 0 {
            self.root
        } else {
            self.branches[self.branches.len() - 1]
        }
    }

    /// The root layer followed by the layers branched into.
    pub fn layers(&self) -> (r: Vec<&'a Layer>)
        ensures
            r@.map_values(|l: &Layer| *l) == seq![self.root_layer()] + self.branch_seq(),
    {
        let mut r: Vec<&'a Layer> = Vec::new();
        r.push(self.root);
        let mut i: usize = 0;
        while i < self.branches.len()
            invariant
                i <= self.branches.len(),
                r@.map_values(|l: &Layer| *l) == seq![self.root_layer()] + self.branch_seq().take(
                    i as int,
                ),
            decreases self.branches.len() - i,
        {
            let ghost before = r@.map_values(|l: &Layer| *l);
            r.push(self.branches[i]);
            proof {
                assert(r@.map_values(|l: &Layer| *l) =~= before.push(*self.branches@[i as int]));
                assert(self.branch_seq()[i as int] == *self.branches@[i as int]);
                assert(self.branch_seq().take(i + 1) =~= self.branch_seq().take(i as int).push(self.branch_seq()[i as int]));
                assert(r@.map_values(|l: &Layer| *l) =~= seq![self.root_layer()] + self.branch_seq().take(
                    i + 1,
                ));
            }
            i += 1;
        }
        proof {
            assert(self.branch_seq().take(i as int) =~= self.branch_seq());
        }
        r
    }

    /// What the navigation offers: the active layer's shortcuts in key order, then, below the
    /// root, the back keys, then the exit keys.
    pub fn view_actions(&self, keys_exit: &[Key], keys_back: &[Key]) -> (r: Vec<(Key, ViewAction)>)
        ensures
            ({
                let a = self.active().shortcuts.entries@;
                let nb = if self.branch_seq().len() > 0 { keys_back@.len() } else { 0 };
                &&& r@.len() == a.len() + nb + keys_exit@.len()
                &&& forall|i: int| 0 <= i < a.len() ==> (#[trigger] r@[i]).0 == a[i].0 && shows_action(a[i].1, r@[i].1)
                &&& forall|i: int| 0 <= i < nb ==> (#[trigger] r@[a.len() + i]).0 == keys_back@[i] && r@[a.len() + i].1 is Unbranch
                &&& forall|i: int| 0 <= i < keys_exit@.len() ==> (#[trigger] r@[a.len() + nb + i]).0 == keys_exit@[i] && r@[a.len() + nb + i].1 is Exit
            }),
    {
        let active = self.active_layer();
        let mut actions = render_layer_actions(active);
        let ghost a_len = actions@.len();
        if self.branches.len() > 0 {
            append_key_actions(&mut actions, keys_back, SystemAction::Unbranch);
        }
        let ghost mid = actions@;
        append_key_actions(&mut actions, keys_exit, SystemAction::Exit);
        proof {
            assert forall|i: int| 0 <= i < a_len implies (#[trigger] actions@[i]).0 == active.shortcuts.entries@[i].0 && shows_action(active.shortcuts.entries@[i].1, actions@[i].1) by {
                assert(actions@[i] == mid[i]);
            }
        }
        actions
    }

    /// The names of the root layer and the layers branched into, outermost first.
    pub fn layer_names(&self) -> (r: Vec<String>)
        ensures
            r@.len() == self.branch_seq().len() + 1,
            r@[0]@ == self.root_layer().name@,
            forall|i: int| 0 <= i < self.branch_seq().len() ==> (#[trigger] r@[i + 1])@ == self.branch_seq()[i].name@,
    {
        let layers = self.layers();
        let mut r: Vec<String> = Vec::new();
        let mut i: usize = 0;
        while i < layers.len()
            invariant
                i <= layers@.len(),
                r@.len() == i,
                layers@.map_values(|l: &Layer| *l) == seq![self.root_layer()] + self.branch_seq(),
                forall|j: int| 0 <= j < i ==> (#[trigger] r@[j])@ == layers@[j].name@,
            decreases layers@.len() - i,
        {
            r.push(layers[i].name.clone());
            i += 1;
        }
        proof {
            let ls = layers@.map_values(|l: &Layer| *l);
            assert(ls.len() == layers@.len());
            assert(ls.len() == self.branch_seq().len() + 1);
            assert(ls[0] == self.root_layer());
            assert(ls[0] == *layers@[0]);
            assert forall|i: int| 0 <= i < self.branch_seq().len() implies (#[trigger] r@[i + 1])@ == self.branch_seq()[i].name@ by {
                assert(ls[i + 1] == self.branch_seq()[i]);
                assert(ls[i + 1] == *layers@[i + 1]);
            }
        }
        r
    }

    /// Handles one key press. Exit keys end the session at every depth. Below the root, back
    /// keys leave the innermost layer. Otherwise the key is looked up in the active layer: a
    /// sub-layer is branched into, a command is handed back for execution, and an unbound key is
    /// ignored.
    pub fn handle_press(&mut self, press: &Key, keys_exit: &[Key], keys_back: &[Key]) -> (r:
        NavigationOutcome<'a>)
        requires
            old(self).wf(),
        ensures
            final(self).wf(),
            final(self).root_layer() == old(self).root_layer(),
            keys_exit@.contains(*press) ==> r is Exit && final(self).branch_seq() == old(self).branch_seq(),
            !keys_exit@.contains(*press) && old(self).branch_seq().len() > 0 && keys_back@.contains(
                *press,
            ) ==> r is Unbranched && final(self).branch_seq() == old(self).branch_seq().drop_last(),
            !keys_exit@.contains(*press) && !(old(self).branch_seq().len() > 0 && keys_back@.contains(
                *press,
            )) ==> match old(self).active().shortcuts@.get(*press) {
                Some(Action::Branch(l)) => r is Branched && final(self).branch_seq() == old(self).branch_seq().push(l),
                Some(Action::Execute(c)) => r == NavigationOutcome::Execute(&c) && final(self).branch_seq() == old(self).branch_seq(),
                None => r is Ignored && final(self).branch_seq() == old(self).branch_seq(),
            },
            r matches NavigationOutcome::Execute(c) ==> c.wf(),
    {
        if keys_contain(keys_exit, press) {
            return NavigationOutcome::Exit;
        }
        if self.branches.len() > 0 && keys_contain(keys_back, press) {
            let ghost before = self.branch_seq();
            self.branches.pop();
            proof {
                assert(self.branch_seq() =~= before.drop_last());
            }
            return NavigationOutcome::Unbranched;
        }
        let active = self.active_layer();
        match active.resolve_shortcut(press) {
            Some(Action::Branch(into)) => {
                let ghost before = self.branch_seq();
                proof {
                    let j = choose|j: int|
                        0 <= j < active.shortcuts.pairs().len() && #[trigger] active.shortcuts.pairs()[j].0
                            == *press;
                    active.shortcuts.lemma_pair_in_view(j);
                    lemma_layer_action_wf(*active, j);
                    assert(branches_into(*active, *into));
                }
                self.branches.push(into);
                proof {
                    assert(self.branch_seq() =~= before.push(*into));
                    assert forall|i: int| 0 <= i < self.branch_seq().len() implies branches_into(
                        if i == 0 {
                            self.root_layer()
                        } else {
                            self.branch_seq()[i - 1]
                        },
                        #[trigger] self.branch_seq()[i],
                    ) by {
                        if i < before.len() {
                            assert(self.branch_seq()[i] == before[i]);
                            if i > 0 {
                                assert(self.branch_seq()[i - 1] == before[i - 1]);
                            }
                        }
                    }
                }
                NavigationOutcome::Branched
            },
            Some(Action::Execute(command)) => {
                proof {
                    let j = choose|j: int|
                        0 <= j < active.shortcuts.pairs().len() && #[trigger] active.shortcuts.pairs()[j].0
                            == *press;
                    active.shortcuts.lemma_pair_in_view(j);
                    lemma_layer_action_wf(*active, j);
                }
                NavigationOutcome::Execute(command)
            },
            None => NavigationOutcome::Ignored,
        }
    }
}


/// Branching into a sub-layer and then pressing a back key returns to the layers before: the
/// branch added by [`LayerNavigation::handle_press`] is the one a back key removes.
pub proof fn lemma_branch_then_back(branches: Seq<Layer>, sub: Layer)
    ensures
        branches.push(sub).len() > 0,
        branches.push(sub).drop_last() == branches,
        branches.push(sub).last() == sub,
{
    assert(branches.push(sub).drop_last() =~= branches);
}

/// Whether navigation goes on after a command ran from it: it goes on, in the layers it was in,
/// unless the command's execution ended the session.
pub fn continues_after_command(result: CommandExecutionResult) -> (r: bool)
    ensures
        r <==> result is KeepGoing,
{
    match result {
        CommandExecutionResult::KeepGoing => true,
        CommandExecutionResult::Finished => false,
    }
}

} // verus!
